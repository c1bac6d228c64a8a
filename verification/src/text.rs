//! Character-level helpers shared by the parsers and formatters.

use vstd::prelude::*;

verus! {

/// Position of the first `c` in `s`, or `s.len()` if there is none.
pub open spec fn first_index(s: Seq<char>, c: char) -> int
    decreases s.len(),
{
    if s.len() == 0 {
        0
    } else if s[0] == c {
        0
    } else {
        1 + first_index(s.drop_first(), c)
    }
}

/// `first_index` is the least position holding `c`, and nothing else is.
pub proof fn lemma_first_index(s: Seq<char>, c: char)
    ensures
        0 <= first_index(s, c) <= s.len(),
        forall|j: int| 0 <= j < first_index(s, c) ==> s[j] != c,
        first_index(s, c) < s.len() ==> s[first_index(s, c)] == c,
    decreases s.len(),
{
    if s.len() > 0 && s[0] != c {
        let rest = s.drop_first();
        lemma_first_index(rest, c);
        assert forall|j: int| 0 <= j < first_index(s, c) implies s[j] != c by {
            if j > 0 {
                assert(s[j] == rest[j - 1]);
            }
        }
    }
}

/// Any position that looks like the first occurrence is the first occurrence.
pub proof fn lemma_first_index_unique(s: Seq<char>, c: char, i: int)
    requires
        0 <= i <= s.len(),
        forall|j: int| 0 <= j < i ==> s[j] != c,
        i < s.len() ==> s[i] == c,
    ensures
        first_index(s, c) == i,
{
    lemma_first_index(s, c);
}

/// Finds the first `c` in `s`.
pub fn position(s: &str, c: char) -> (i: usize)
    ensures
        i == first_index(s@, c),
{
    let n: usize = s.unicode_len();
    let mut i: usize = 0;
    while i < n
        invariant
            n == s@.len(),
            i <= n,
            forall|j: int| 0 <= j < i ==> s@[j] != c,
        decreases n - i,
    {
        if s.get_char(i) == c {
            proof {
                lemma_first_index_unique(s@, c, i as int);
            }
            return i;
        }
        i += 1;
    }
    proof {
        lemma_first_index_unique(s@, c, i as int);
    }
    i
}

/// The texts that a vector of strings holds.
pub open spec fn texts(strings: Seq<String>) -> Seq<Seq<char>> {
    Seq::new(strings.len(), |i: int| strings[i]@)
}

/// The pieces of `s` between occurrences of `sep`. There is always at least
/// one piece; `k` separators give `k + 1` pieces, some of them possibly empty.
pub open spec fn split(s: Seq<char>, sep: char) -> Seq<Seq<char>>
    decreases s.len(),
{
    if s.len() == 0 {
        seq![Seq::<char>::empty()]
    } else {
        let before = split(s.drop_last(), sep);
        if s.last() == sep {
            before.push(Seq::<char>::empty())
        } else {
            before.drop_last().push(before.last().push(s.last()))
        }
    }
}

/// The pieces put back together with `sep` between neighbours.
pub open spec fn join(parts: Seq<Seq<char>>, sep: Seq<char>) -> Seq<char>
    decreases parts.len(),
{
    if parts.len() == 0 {
        Seq::<char>::empty()
    } else if parts.len() == 1 {
        parts[0]
    } else {
        join(parts.drop_last(), sep) + sep + parts.last()
    }
}

/// Splitting loses nothing and leaves no separator behind: the pieces are free
/// of `sep`, and joining them with `sep` gives the text back.
pub proof fn lemma_split_join(s: Seq<char>, sep: char)
    ensures
        split(s, sep).len() >= 1,
        forall|k: int| 0 <= k < split(s, sep).len() ==> !(#[trigger] split(s, sep)[k]).contains(sep),
        join(split(s, sep), seq![sep]) == s,
    decreases s.len(),
{
    let parts = split(s, sep);
    if s.len() == 0 {
        assert(join(parts, seq![sep]) == s);
    } else {
        let front = s.drop_last();
        let before = split(front, sep);
        lemma_split_join(front, sep);
        if s.last() == sep {
            assert(parts.drop_last() == before);
            assert(join(parts, seq![sep]) == join(before, seq![sep]) + seq![sep]
                + Seq::<char>::empty());
            assert(front + seq![sep] + Seq::<char>::empty() == s);
            assert forall|k: int| 0 <= k < parts.len() implies !(#[trigger] parts[k]).contains(
                sep,
            ) by {
                if k < before.len() {
                    assert(parts[k] == before[k]);
                }
            }
        } else {
            let grown = before.last().push(s.last());
            assert(parts == before.drop_last().push(grown));
            assert forall|k: int| 0 <= k < parts.len() implies !(#[trigger] parts[k]).contains(
                sep,
            ) by {
                if k < before.len() - 1 {
                    assert(parts[k] == before[k]);
                } else {
                    assert(!before.last().contains(sep));
                    assert forall|m: int| 0 <= m < grown.len() implies grown[m] != sep by {
                        if m < before.last().len() {
                            assert(before.last()[m] == grown[m]);
                            assert(before.last().contains(grown[m]));
                        }
                    }
                }
            }
            if before.len() == 1 {
                assert(before[0] == front);
                assert(join(parts, seq![sep]) == grown);
                assert(grown == s);
            } else {
                assert(parts.drop_last() == before.drop_last());
                assert(join(parts, seq![sep]) == join(before.drop_last(), seq![sep]) + seq![sep]
                    + grown);
                assert(join(before, seq![sep]) == join(before.drop_last(), seq![sep]) + seq![sep]
                    + before.last());
                assert(join(before.drop_last(), seq![sep]) + seq![sep] + grown == (join(
                    before.drop_last(),
                    seq![sep],
                ) + seq![sep] + before.last()).push(s.last()));
                assert(front.push(s.last()) == s);
            }
        }
    }
}

/// Cuts `s` at every `sep`.
pub fn split_text(s: &str, sep: char) -> (parts: Vec<String>)
    ensures
        texts(parts@) == split(s@, sep),
{
    let n: usize = s.unicode_len();
    let mut parts: Vec<String> = Vec::new();
    let mut start: usize = 0;
    let mut i: usize = 0;
    assert(s@.subrange(0, 0) == Seq::<char>::empty());
    assert(texts(parts@).push(s@.subrange(0, 0)) == split(s@.subrange(0, 0), sep));
    while i < n
        invariant
            n == s@.len(),
            start <= i <= n,
            split(s@.subrange(0, i as int), sep) == texts(parts@).push(
                s@.subrange(start as int, i as int),
            ),
        decreases n - i,
    {
        let ghost seen = s@.subrange(0, i as int);
        let ghost next = s@.subrange(0, i + 1);
        let ghost done = texts(parts@);
        assert(next.drop_last() == seen);
        assert(next.last() == s@[i as int]);
        if s.get_char(i) == sep {
            let piece = s.substring_char(start, i).to_owned();
            parts.push(piece);
            assert(texts(parts@) == done.push(piece@));
            start = i + 1;
            assert(s@.subrange(start as int, i + 1) == Seq::<char>::empty());
        } else {
            assert(done.push(s@.subrange(start as int, i as int)).drop_last() == done);
            assert(s@.subrange(start as int, i as int).push(s@[i as int]) == s@.subrange(
                start as int,
                i + 1,
            ));
        }
        i += 1;
    }
    let ghost done = texts(parts@);
    let piece = s.substring_char(start, n).to_owned();
    parts.push(piece);
    assert(texts(parts@) == done.push(piece@));
    assert(s@.subrange(0, n as int) == s@);
    parts
}

/// Glues `parts` together with `sep` between neighbours.
pub fn join_texts(parts: &Vec<String>, sep: &str) -> (joined: String)
    ensures
        joined@ == join(texts(parts@), sep@),
{
    let mut joined = String::new();
    let mut i: usize = 0;
    assert(texts(parts@).subrange(0, 0) == Seq::<Seq<char>>::empty());
    while i < parts.len()
        invariant
            i <= parts.len(),
            joined@ == join(texts(parts@).subrange(0, i as int), sep@),
        decreases parts.len() - i,
    {
        let ghost seen = texts(parts@).subrange(0, i as int);
        let ghost next = texts(parts@).subrange(0, i + 1);
        assert(next.drop_last() == seen);
        assert(next.last() == parts@[i as int]@);
        if i > 0 {
            joined.append(sep);
        } else {
            assert(join(next, sep@) == next[0]);
            assert(joined@ + parts@[i as int]@ == parts@[i as int]@);
        }
        joined.append(parts[i].as_str());
        i += 1;
    }
    assert(texts(parts@).subrange(0, parts.len() as int) == texts(parts@));
    joined
}

/// Whether two strings hold the same characters.
pub fn text_eq(a: &str, b: &str) -> (same: bool)
    ensures
        same == (a@ == b@),
{
    let n: usize = a.unicode_len();
    if n != b.unicode_len() {
        return false;
    }
    let mut i: usize = 0;
    while i < n
        invariant
            n == a@.len(),
            n == b@.len(),
            i <= n,
            forall|j: int| 0 <= j < i ==> a@[j] == b@[j],
        decreases n - i,
    {
        if a.get_char(i) != b.get_char(i) {
            return false;
        }
        i += 1;
    }
    assert(a@ =~= b@);
    true
}

/// Dictionary order on texts, character by character, a proper prefix first.
/// This is the order in which Rust compares strings.
pub open spec fn lex_le(a: Seq<char>, b: Seq<char>) -> bool
    decreases a.len(),
{
    if a.len() == 0 {
        true
    } else if b.len() == 0 {
        false
    } else if a[0] != b[0] {
        a[0] < b[0]
    } else {
        lex_le(a.drop_first(), b.drop_first())
    }
}

/// `lex_le` as a relation, for sorting.
pub open spec fn lex_order() -> spec_fn(Seq<char>, Seq<char>) -> bool {
    |a: Seq<char>, b: Seq<char>| lex_le(a, b)
}

proof fn lemma_lex_reflexive(a: Seq<char>)
    ensures
        lex_le(a, a),
    decreases a.len(),
{
    if a.len() > 0 {
        lemma_lex_reflexive(a.drop_first());
    }
}

proof fn lemma_lex_antisymmetric(a: Seq<char>, b: Seq<char>)
    requires
        lex_le(a, b),
        lex_le(b, a),
    ensures
        a == b,
    decreases a.len(),
{
    if a.len() > 0 {
        lemma_lex_antisymmetric(a.drop_first(), b.drop_first());
        assert(a =~= seq![a[0]] + a.drop_first());
        assert(b =~= seq![b[0]] + b.drop_first());
    } else {
        assert(a =~= b);
    }
}

proof fn lemma_lex_transitive(a: Seq<char>, b: Seq<char>, c: Seq<char>)
    requires
        lex_le(a, b),
        lex_le(b, c),
    ensures
        lex_le(a, c),
    decreases a.len(),
{
    if a.len() > 0 && a[0] == b[0] && b[0] == c[0] {
        lemma_lex_transitive(a.drop_first(), b.drop_first(), c.drop_first());
    }
}

proof fn lemma_lex_connected(a: Seq<char>, b: Seq<char>)
    ensures
        lex_le(a, b) || lex_le(b, a),
    decreases a.len(),
{
    if a.len() == 0 {
        assert(lex_le(a, b));
    } else if b.len() == 0 {
        assert(lex_le(b, a));
    } else if a[0] == b[0] {
        lemma_lex_connected(a.drop_first(), b.drop_first());
    } else if a[0] < b[0] {
        assert(lex_le(a, b));
    } else {
        assert(lex_le(b, a));
    }
}

/// Dictionary order is a total order, so sorting by it has one result.
pub proof fn lemma_lex_total()
    ensures
        vstd::relations::total_ordering(lex_order()),
{
    let r = lex_order();
    assert forall|x: Seq<char>| #[trigger] r(x, x) by {
        lemma_lex_reflexive(x);
    }
    assert forall|x: Seq<char>, y: Seq<char>| #[trigger] r(x, y) && #[trigger] r(y, x) implies x
        == y by {
        lemma_lex_antisymmetric(x, y);
    }
    assert forall|x: Seq<char>, y: Seq<char>, z: Seq<char>| #[trigger]
        r(x, y) && #[trigger] r(y, z) implies r(x, z) by {
        lemma_lex_transitive(x, y, z);
    }
    assert forall|x: Seq<char>, y: Seq<char>| #[trigger] r(x, y) || #[trigger] r(y, x) by {
        lemma_lex_connected(x, y);
    }
}

/// Whether `a` comes before `b` in dictionary order, or equals it.
pub fn text_le(a: &str, b: &str) -> (le: bool)
    ensures
        le == lex_le(a@, b@),
{
    let n: usize = a.unicode_len();
    let m: usize = b.unicode_len();
    let mut i: usize = 0;
    assert(a@.skip(0) == a@ && b@.skip(0) == b@);
    while i < n && i < m
        invariant
            n == a@.len(),
            m == b@.len(),
            i <= n,
            i <= m,
            lex_le(a@, b@) == lex_le(a@.skip(i as int), b@.skip(i as int)),
        decreases n - i,
    {
        let x = a.get_char(i);
        let y = b.get_char(i);
        assert(a@.skip(i as int)[0] == x && b@.skip(i as int)[0] == y);
        if x != y {
            return x < y;
        }
        assert(a@.skip(i as int).drop_first() == a@.skip(i + 1));
        assert(b@.skip(i as int).drop_first() == b@.skip(i + 1));
        i += 1;
    }
    i == n
}

/// The strings in dictionary order.
pub fn sort_texts(names: &Vec<String>) -> (sorted: Vec<String>)
    ensures
        texts(sorted@) == texts(names@).sort_by(lex_order()),
{
    let mut sorted: Vec<String> = Vec::new();
    let mut k: usize = 0;
    assert(texts(names@).subrange(0, 0) == texts(sorted@));
    while k < names.len()
        invariant
            k <= names.len(),
            vstd::relations::sorted_by(texts(sorted@), lex_order()),
            texts(sorted@).to_multiset() == texts(names@).subrange(0, k as int).to_multiset(),
        decreases names.len() - k,
    {
        let name = names[k].clone();
        let ghost before = texts(sorted@);
        let mut j: usize = 0;
        while j < sorted.len() && text_le(sorted[j].as_str(), name.as_str())
            invariant
                j <= sorted.len(),
                forall|m: int| 0 <= m < j ==> lex_le(#[trigger] sorted@[m]@, name@),
            decreases sorted.len() - j,
        {
            j += 1;
        }
        proof {
            let after = before.insert(j as int, name@);
            assert forall|x: int, y: int| 0 <= x < y < after.len() implies lex_order()(
                after[x],
                after[y],
            ) by {
                if y < j {
                    assert(lex_order()(before[x], before[y]));
                } else if y == j {
                    assert(lex_le(sorted@[x]@, name@));
                } else if x < j {
                    assert(lex_order()(before[x], before[y - 1]));
                } else if x == j {
                    lemma_lex_connected(before[j as int], name@);
                    if y - 1 > j {
                        assert(lex_order()(before[j as int], before[y - 1]));
                        lemma_lex_transitive(name@, before[j as int], before[y - 1]);
                    }
                } else {
                    assert(lex_order()(before[x - 1], before[y - 1]));
                }
            }
            vstd::seq_lib::to_multiset_insert(before, j as int, name@);
            let seen = texts(names@).subrange(0, k as int);
            assert(texts(names@).subrange(0, k + 1) == seen.push(name@));
            vstd::seq_lib::to_multiset_build(seen, name@);
        }
        sorted.insert(j, name);
        assert(texts(sorted@) == before.insert(j as int, name@));
        k += 1;
    }
    proof {
        let all = texts(names@);
        assert(all.subrange(0, names.len() as int) == all);
        lemma_lex_total();
        all.lemma_sort_by_ensures(lex_order());
        vstd::seq_lib::lemma_sorted_unique(texts(sorted@), all.sort_by(lex_order()), lex_order());
    }
    sorted
}

/// Whether `c` is one of the ten ASCII digits.
pub open spec fn is_digit(c: char) -> bool {
    '0' <= c <= '9'
}

/// Whether `c` is an ASCII letter.
pub open spec fn is_letter(c: char) -> bool {
    'a' <= c <= 'z' || 'A' <= c <= 'Z'
}

/// The number that the digit `c` stands for.
pub open spec fn digit_value(c: char) -> int {
    c as int - '0' as int
}

/// The digit that stands for `d`, for `d` from 0 to 9.
pub open spec fn digit_char(d: int) -> char {
    if d == 0 {
        '0'
    } else if d == 1 {
        '1'
    } else if d == 2 {
        '2'
    } else if d == 3 {
        '3'
    } else if d == 4 {
        '4'
    } else if d == 5 {
        '5'
    } else if d == 6 {
        '6'
    } else if d == 7 {
        '7'
    } else if d == 8 {
        '8'
    } else {
        '9'
    }
}

/// Whether `s` is made of ASCII digits only.
pub open spec fn all_digits(s: Seq<char>) -> bool {
    forall|i: int| 0 <= i < s.len() ==> is_digit(#[trigger] s[i])
}

/// Whether `s` is made of ASCII letters only.
pub open spec fn all_letters(s: Seq<char>) -> bool {
    forall|i: int| 0 <= i < s.len() ==> is_letter(#[trigger] s[i])
}

/// The number that a run of digits writes in base ten; leading zeros count
/// for nothing.
pub open spec fn decimal_value(s: Seq<char>) -> int
    decreases s.len(),
{
    if s.len() == 0 {
        0
    } else {
        decimal_value(s.drop_last()) * 10 + digit_value(s.last())
    }
}

/// The digits of `n` in base ten, without leading zeros.
pub open spec fn digits(n: nat) -> Seq<char>
    decreases n,
{
    if n < 10 {
        seq![digit_char(n as int)]
    } else {
        digits(n / 10).push(digit_char((n % 10) as int))
    }
}

/// `n` written in base ten, with a minus sign if it is negative.
pub open spec fn decimal(n: int) -> Seq<char> {
    if n < 0 {
        seq!['-'] + digits((-n) as nat)
    } else {
        digits(n as nat)
    }
}

/// Reading back what `digits` wrote gives the number again.
pub proof fn lemma_digits_value(n: nat)
    ensures
        digits(n).len() >= 1,
        all_digits(digits(n)),
        decimal_value(digits(n)) == n,
    decreases n,
{
    if n < 10 {
        assert(digits(n).drop_last() == Seq::<char>::empty());
        assert(decimal_value(digits(n).drop_last()) == 0);
    } else {
        lemma_digits_value(n / 10);
        assert(digits(n).drop_last() == digits(n / 10));
    }
}

proof fn lemma_value_grows(s: Seq<char>, k: int)
    requires
        all_digits(s),
        0 <= k <= s.len(),
    ensures
        0 <= decimal_value(s.subrange(0, k)) <= decimal_value(s),
    decreases s.len() - k,
{
    if k == s.len() {
        assert(s.subrange(0, k) == s);
        lemma_value_nonnegative(s);
    } else {
        lemma_value_grows(s, k + 1);
        let longer = s.subrange(0, k + 1);
        assert(longer.drop_last() == s.subrange(0, k));
        assert(is_digit(s[k]));
        lemma_value_nonnegative(s.subrange(0, k));
    }
}

proof fn lemma_value_nonnegative(s: Seq<char>)
    requires
        all_digits(s),
    ensures
        0 <= decimal_value(s),
    decreases s.len(),
{
    if s.len() > 0 {
        lemma_value_nonnegative(s.drop_last());
        assert(is_digit(s.last()));
    }
}

/// Whether every character of `s` is an ASCII digit.
pub fn is_all_digits(s: &str) -> (yes: bool)
    ensures
        yes == all_digits(s@),
{
    let n: usize = s.unicode_len();
    let mut i: usize = 0;
    while i < n
        invariant
            n == s@.len(),
            i <= n,
            forall|j: int| 0 <= j < i ==> is_digit(#[trigger] s@[j]),
        decreases n - i,
    {
        let c = s.get_char(i);
        if !('0' <= c && c <= '9') {
            return false;
        }
        i += 1;
    }
    true
}

/// Whether every character of `s` is an ASCII letter.
pub fn is_all_letters(s: &str) -> (yes: bool)
    ensures
        yes == all_letters(s@),
{
    let n: usize = s.unicode_len();
    let mut i: usize = 0;
    while i < n
        invariant
            n == s@.len(),
            i <= n,
            forall|j: int| 0 <= j < i ==> is_letter(#[trigger] s@[j]),
        decreases n - i,
    {
        let c = s.get_char(i);
        if !(('a' <= c && c <= 'z') || ('A' <= c && c <= 'Z')) {
            return false;
        }
        i += 1;
    }
    true
}

/// The number written by a run of digits, if it is one and fits an `i32`.
pub fn parse_digits(s: &str) -> (number: Option<i32>)
    ensures
        match number {
            Some(value) => all_digits(s@) && value == decimal_value(s@),
            None => !all_digits(s@) || decimal_value(s@) > i32::MAX,
        },
{
    if !is_all_digits(s) {
        return None;
    }
    let n: usize = s.unicode_len();
    let mut value: i64 = 0;
    let mut i: usize = 0;
    assert(s@.subrange(0, 0) == Seq::<char>::empty());
    while i < n
        invariant
            n == s@.len(),
            i <= n,
            all_digits(s@),
            value == decimal_value(s@.subrange(0, i as int)),
            0 <= value <= i32::MAX,
        decreases n - i,
    {
        let c = s.get_char(i);
        assert(is_digit(s@[i as int]));
        let d: i64 = (c as u32 - '0' as u32) as i64;
        let ghost longer = s@.subrange(0, i + 1);
        assert(longer.drop_last() == s@.subrange(0, i as int));
        assert(longer.last() == c);
        let next: i64 = value * 10 + d;
        if next > i32::MAX as i64 {
            proof {
                lemma_value_grows(s@, i + 1);
            }
            return None;
        }
        value = next;
        i += 1;
    }
    assert(s@.subrange(0, n as int) == s@);
    Some(value as i32)
}

fn digit_text(d: u32) -> (t: &'static str)
    requires
        d < 10,
    ensures
        t@ == seq![digit_char(d as int)],
{
    proof {
        reveal_strlit("0");
        reveal_strlit("1");
        reveal_strlit("2");
        reveal_strlit("3");
        reveal_strlit("4");
        reveal_strlit("5");
        reveal_strlit("6");
        reveal_strlit("7");
        reveal_strlit("8");
        reveal_strlit("9");
    }
    let t = if d == 0 {
        "0"
    } else if d == 1 {
        "1"
    } else if d == 2 {
        "2"
    } else if d == 3 {
        "3"
    } else if d == 4 {
        "4"
    } else if d == 5 {
        "5"
    } else if d == 6 {
        "6"
    } else if d == 7 {
        "7"
    } else if d == 8 {
        "8"
    } else {
        "9"
    };
    assert(t@ =~= seq![digit_char(d as int)]);
    t
}

fn push_digits(n: u32, out: &mut String)
    ensures
        final(out)@ == old(out)@ + digits(n as nat),
    decreases n,
{
    if n >= 10 {
        push_digits(n / 10, out);
    }
    out.append(digit_text(n % 10));
    assert(old(out)@ + digits(n as nat) =~= out@);
}

/// Writes `n` in base ten, as Rust prints an `i32`.
pub fn format_number(n: i32) -> (written: String)
    ensures
        written@ == decimal(n as int),
{
    let mut written = String::new();
    if n < 0 {
        proof {
            reveal_strlit("-");
        }
        written.append("-");
        assert(written@ =~= seq!['-']);
        let magnitude: u32 = (-(n as i64)) as u32;
        push_digits(magnitude, &mut written);
    } else {
        push_digits(n as u32, &mut written);
        assert(Seq::<char>::empty() + digits(n as nat) =~= digits(n as nat));
    }
    written
}

} // verus!
