//! Looking things up in text.
use vstd::arithmetic::power::{lemma_pow0, lemma_pow1, lemma_pow_adds, pow};
use vstd::prelude::*;

verus! {

/// A character that separates words: the Unicode white space.
pub open spec fn is_space(c: char) -> bool {
    let u = c as u32;
    ||| 0x9 <= u <= 0xd
    ||| u == 0x20
    ||| u == 0x85
    ||| u == 0xa0
    ||| u == 0x1680
    ||| 0x2000 <= u <= 0x200a
    ||| u == 0x2028
    ||| u == 0x2029
    ||| u == 0x202f
    ||| u == 0x205f
    ||| u == 0x3000
}

/// Whether a character separates words.
pub fn space(c: char) -> (r: bool)
    ensures
        r == is_space(c),
{
    let u: u32 = c as u32;
    (0x9 <= u && u <= 0xd) || u == 0x20 || u == 0x85 || u == 0xa0 || u == 0x1680 || (0x2000 <= u
        && u <= 0x200a) || u == 0x2028 || u == 0x2029 || u == 0x202f || u == 0x205f || u == 0x3000
}

/// The characters of a string.
pub fn chars(s: &str) -> (r: Vec<char>)
    ensures
        r@ == s@,
{
    let mut r: Vec<char> = Vec::new();
    for c in iter: s.chars()
        invariant
            r@ == s@.take(iter.index() as int),
            iter.seq() == s@,
    {
        r.push(c);
    }
    assert(s@.take(s@.len() as int) =~= s@);
    r
}

/// `needle` stands in `hay` at `at`.
pub open spec fn stands_at(hay: Seq<char>, needle: Seq<char>, at: int) -> bool {
    &&& 0 <= at
    &&& at + needle.len() <= hay.len()
    &&& hay.subrange(at, at + needle.len()) == needle
}

/// `needle` stands in `hay`.
pub open spec fn occurs(hay: Seq<char>, needle: Seq<char>) -> bool {
    exists|at: int| #[trigger] stands_at(hay, needle, at)
}

/// `needle` stands in `hay` as a word of its own.
pub open spec fn occurs_as_word(hay: Seq<char>, needle: Seq<char>) -> bool {
    exists|at: int| #[trigger] stands_at(hay, needle, at) && bounded_word(hay, at, at + needle.len())
}

/// The characters from `start` to `end` are bounded by space or by the ends of `hay`.
pub open spec fn bounded_word(hay: Seq<char>, start: int, end: int) -> bool {
    &&& start == 0 || is_space(hay[start - 1])
    &&& end == hay.len() || is_space(hay[end])
}

/// Whether `needle` stands in `hay` at `at`.
pub fn found_at(hay: &[char], needle: &[char], at: usize) -> (r: bool)
    ensures
        r == stands_at(hay@, needle@, at as int),
{
    let n: usize = needle.len();
    let len: usize = hay.len();
    if at > len || n > len - at {
        return false;
    }
    let mut i: usize = 0;
    while i < n
        invariant
            n == needle@.len(),
            len == hay@.len(),
            at + n <= len,
            i <= n,
            forall|j: int| 0 <= j < i ==> #[trigger] needle@[j] == hay@[at + j],
        decreases n - i,
    {
        if hay[at + i] != needle[i] {
            proof {
                assert(hay@.subrange(at as int, at + n)[i as int] != needle@[i as int]);
            }
            return false;
        }
        i += 1;
    }
    assert(hay@.subrange(at as int, at + n) =~= needle@);
    true
}

/// Whether `needle` stands in `hay`.
pub fn contains(hay: &[char], needle: &[char]) -> (r: bool)
    ensures
        r == occurs(hay@, needle@),
{
    let len: usize = hay.len();
    let n: usize = needle.len();
    if n > len {
        return false;
    }
    let last: usize = len - n;
    let mut at: usize = 0;
    loop
        invariant
            len == hay@.len(),
            n == needle@.len(),
            last + n == len,
            at <= last,
            forall|k: int| 0 <= k < at ==> !#[trigger] stands_at(hay@, needle@, k),
        decreases last - at,
    {
        if found_at(hay, needle, at) {
            return true;
        }
        if at == last {
            assert(forall|k: int| !#[trigger] stands_at(hay@, needle@, k));
            return false;
        }
        at += 1;
    }
}

/// Whether `needle` stands in `hay` as a word of its own.
pub fn contains_word(hay: &[char], needle: &[char]) -> (r: bool)
    ensures
        r == occurs_as_word(hay@, needle@),
{
    let len: usize = hay.len();
    let n: usize = needle.len();
    if n > len {
        return false;
    }
    let last: usize = len - n;
    let mut at: usize = 0;
    loop
        invariant
            len == hay@.len(),
            n == needle@.len(),
            last + n == len,
            at <= last,
            forall|k: int|
                0 <= k < at ==> !(#[trigger] stands_at(hay@, needle@, k) && bounded_word(
                    hay@,
                    k,
                    k + n,
                )),
        decreases last - at,
    {
        if found_at(hay, needle, at) && (at == 0 || space(hay[at - 1])) && (at + n == len || space(
            hay[at + n],
        )) {
            assert(stands_at(hay@, needle@, at as int) && bounded_word(hay@, at as int, at + n));
            return true;
        }
        if at == last {
            assert forall|k: int| !(#[trigger] stands_at(hay@, needle@, k) && bounded_word(
                hay@,
                k,
                k + n,
            )) by {}
            return false;
        }
        at += 1;
    }
}

/// `s` begins with `head`.
pub open spec fn begins_with(s: Seq<char>, head: Seq<char>) -> bool {
    stands_at(s, head, 0)
}

/// Whether `s` begins with `head`.
pub fn starts_with(s: &str, head: &str) -> (r: bool)
    ensures
        r == begins_with(s@, head@),
{
    let hay = chars(s);
    let needle = chars(head);
    found_at(hay.as_slice(), needle.as_slice(), 0)
}

/// The first position from `from` on at which `s` has a space (or none, if `spaces` is false);
/// the length of `s` if there is none.
pub open spec fn next_where(s: Seq<char>, from: int, spaces: bool) -> int
    decreases s.len() - from,
{
    if from < 0 || from >= s.len() || is_space(s[from]) == spaces {
        from
    } else {
        next_where(s, from + 1, spaces)
    }
}

/// The first word of `s`; empty if there is none.
pub open spec fn first_word(s: Seq<char>) -> Seq<char> {
    let start = next_where(s, 0, false);
    s.subrange(start, next_where(s, start, true))
}

/// The first position from `from` on at which `s` has a space (or none).
pub fn skip_to(s: &[char], from: usize, spaces: bool) -> (r: usize)
    requires
        from <= s@.len(),
    ensures
        r == next_where(s@, from as int, spaces),
        from <= r <= s@.len(),
{
    let len: usize = s.len();
    let mut i: usize = from;
    while i < len && space(s[i]) != spaces
        invariant
            len == s@.len(),
            from <= i <= len,
            next_where(s@, from as int, spaces) == next_where(s@, i as int, spaces),
        decreases len - i,
    {
        i += 1;
    }
    i
}

/// `s` without the space at its start.
pub open spec fn without_lead(s: Seq<char>) -> Seq<char>
    decreases s.len(),
{
    if s.len() > 0 && is_space(s[0]) {
        without_lead(s.skip(1))
    } else {
        s
    }
}

/// `s` without the space at its end.
pub open spec fn without_trail(s: Seq<char>) -> Seq<char>
    decreases s.len(),
{
    if s.len() > 0 && is_space(s.last()) {
        without_trail(s.drop_last())
    } else {
        s
    }
}

/// The number that decimal digits write.
pub open spec fn decimal(s: Seq<char>) -> int
    decreases s.len(),
{
    if s.len() == 0 {
        0
    } else {
        10 * decimal(s.drop_last()) + (s.last() as u32 - '0' as u32)
    }
}

/// Nothing but decimal digits, at least one.
pub open spec fn all_digits(s: Seq<char>) -> bool {
    s.len() > 0 && forall|i: int| 0 <= i < s.len() ==> '0' <= #[trigger] s[i] <= '9'
}

/// The 32-bit number that a text writes: decimal digits, with a plus sign before them or not,
/// between space.
pub open spec fn number_in(s: Seq<char>) -> Option<u32> {
    let t = without_trail(without_lead(s));
    let digits = if t.len() > 0 && t[0] == '+' {
        t.skip(1)
    } else {
        t
    };
    if all_digits(digits) && decimal(digits) <= u32::MAX {
        Some(decimal(digits) as u32)
    } else {
        None
    }
}

/// More digits write no smaller number.
proof fn lemma_decimal_grows(s: Seq<char>, k: int)
    requires
        0 <= k <= s.len(),
        forall|i: int| 0 <= i < s.len() ==> '0' <= #[trigger] s[i] <= '9',
    ensures
        0 <= decimal(s.take(k)) <= decimal(s),
    decreases s.len(),
{
    if s.len() > 0 {
        if k == s.len() {
            assert(s.take(k) =~= s);
            assert(s.drop_last().take(k - 1) =~= s.drop_last());
            lemma_decimal_grows(s.drop_last(), k - 1);
        } else {
            assert(s.drop_last().take(k) =~= s.take(k));
            lemma_decimal_grows(s.drop_last(), k);
        }
    } else {
        assert(s.take(k) =~= s);
    }
}

/// The number that a text writes.
pub fn parse_number(s: &str) -> (r: Option<u32>)
    ensures
        r == number_in(s@),
{
    let cs = chars(s);
    let mut from: usize = 0;
    let mut to: usize = cs.len();
    assert(cs@.subrange(0, cs@.len() as int) =~= cs@);
    while from < to && space(cs[from])
        invariant
            from <= to == cs@.len(),
            without_lead(cs@) == without_lead(cs@.subrange(from as int, to as int)),
        decreases to - from,
    {
        proof {
            assert(cs@.subrange(from as int, to as int).skip(1) =~= cs@.subrange(
                from + 1,
                to as int,
            ));
        }
        from += 1;
    }
    let ghost lead = cs@.subrange(from as int, to as int);
    assert(without_lead(cs@) == lead);
    while from < to && space(cs[to - 1])
        invariant
            from <= to <= cs@.len(),
            without_trail(lead) == without_trail(cs@.subrange(from as int, to as int)),
        decreases to - from,
    {
        proof {
            assert(cs@.subrange(from as int, to as int).drop_last() =~= cs@.subrange(
                from as int,
                to - 1,
            ));
        }
        to -= 1;
    }
    let ghost t = cs@.subrange(from as int, to as int);
    assert(without_trail(lead) == t);
    if from < to && cs[from] == '+' {
        assert(t.skip(1) =~= cs@.subrange(from + 1, to as int));
        from += 1;
    }
    let ghost digits = cs@.subrange(from as int, to as int);
    if from == to {
        return None;
    }
    let mut value: u64 = 0;
    let mut i: usize = from;
    assert(digits.take(0) =~= Seq::<char>::empty());
    while i < to
        invariant
            from <= i <= to <= cs@.len(),
            digits == cs@.subrange(from as int, to as int),
            forall|j: int| 0 <= j < i - from ==> '0' <= #[trigger] digits[j] <= '9',
            value == decimal(digits.take(i - from)),
            value <= u32::MAX,
            number_in(s@) == if all_digits(digits) && decimal(digits) <= u32::MAX {
                Some(decimal(digits) as u32)
            } else {
                None::<u32>
            },
            digits.len() > 0,
        decreases to - i,
    {
        let c = cs[i];
        assert(digits[i - from] == c);
        if c < '0' || '9' < c {
            return None;
        }
        let d: u32 = c as u32 - '0' as u32;
        value = value * 10 + d as u64;
        assert(digits.take(i + 1 - from).drop_last() =~= digits.take(i - from));
        if value > u32::MAX as u64 {
            proof {
                if all_digits(digits) {
                    lemma_decimal_grows(digits, i + 1 - from);
                }
            }
            return None;
        }
        i += 1;
    }
    assert(digits.take(to - from) =~= digits);
    Some(value as u32)
}

/// The code points that Unicode calls white space.
pub open spec fn white_space() -> Set<u32> {
    set![
        0x9, 0xa, 0xb, 0xc, 0xd, 0x20, 0x85, 0xa0, 0x1680, 0x2000, 0x2001, 0x2002, 0x2003, 0x2004,
        0x2005, 0x2006, 0x2007, 0x2008, 0x2009, 0x200a, 0x2028, 0x2029, 0x202f, 0x205f, 0x3000,
    ]
}

/// Words are separated by white space and by nothing else.
pub proof fn law_words_are_separated_by_white_space(c: char)
    ensures
        is_space(c) <==> white_space().contains(c as u32),
{
}

/// `hay` is `before`, `needle` and `after`, in this order.
pub open spec fn parts(
    hay: Seq<char>,
    before: Seq<char>,
    needle: Seq<char>,
    after: Seq<char>,
) -> bool {
    hay == before + needle + after
}

/// No word goes on over the end of `before` or the beginning of `after`.
pub open spec fn apart(before: Seq<char>, after: Seq<char>) -> bool {
    &&& before.len() > 0 ==> white_space().contains(before.last() as u32)
    &&& after.len() > 0 ==> white_space().contains(after[0] as u32)
}

proof fn lemma_parts_at(hay: Seq<char>, needle: Seq<char>, at: int)
    requires
        stands_at(hay, needle, at),
    ensures
        parts(hay, hay.take(at), needle, hay.skip(at + needle.len())),
        bounded_word(hay, at, at + needle.len()) <==> apart(
            hay.take(at),
            hay.skip(at + needle.len()),
        ),
{
    let (a, b) = (hay.take(at), hay.skip(at + needle.len()));
    let end = at + needle.len();
    assert forall|i: int| 0 <= i < hay.len() implies hay[i] == (a + needle + b)[i] by {
        if at <= i < end {
            assert(hay.subrange(at, end)[i - at] == hay[i]);
        }
    }
    assert(hay =~= a + needle + b);
    if at > 0 {
        law_words_are_separated_by_white_space(hay[at - 1]);
    }
    if end < hay.len() {
        law_words_are_separated_by_white_space(hay[end]);
    }
}

proof fn lemma_at_parts(hay: Seq<char>, before: Seq<char>, needle: Seq<char>, after: Seq<char>)
    requires
        parts(hay, before, needle, after),
    ensures
        stands_at(hay, needle, before.len() as int),
        bounded_word(hay, before.len() as int, (before.len() + needle.len()) as int) <==> apart(
            before,
            after,
        ),
{
    let at = before.len() as int;
    assert(hay.subrange(at, at + needle.len()) =~= needle);
    assert(hay.take(at) =~= before);
    assert(hay.skip(at + needle.len()) =~= after);
    lemma_parts_at(hay, needle, at);
}

/// A text is found in another exactly if it makes up the other with something before and something
/// behind; as a word, if no word goes on into these; at the beginning, if there is nothing before.
pub proof fn law_text_is_found_where_it_is_a_part(hay: Seq<char>, needle: Seq<char>)
    ensures
        occurs(hay, needle) <==> exists|a: Seq<char>, b: Seq<char>| #[trigger]
            parts(hay, a, needle, b),
        occurs_as_word(hay, needle) <==> exists|a: Seq<char>, b: Seq<char>| #[trigger]
            parts(hay, a, needle, b) && apart(a, b),
        begins_with(hay, needle) <==> exists|b: Seq<char>| hay == #[trigger] (needle + b),
{
    assert forall|at: int| #[trigger] stands_at(hay, needle, at) implies parts(
        hay,
        hay.take(at),
        needle,
        hay.skip(at + needle.len()),
    ) && (bounded_word(hay, at, at + needle.len()) <==> apart(
        hay.take(at),
        hay.skip(at + needle.len()),
    )) by {
        lemma_parts_at(hay, needle, at);
    }
    assert forall|a: Seq<char>, b: Seq<char>| #[trigger] parts(hay, a, needle, b) implies stands_at(
        hay,
        needle,
        a.len() as int,
    ) && (bounded_word(hay, a.len() as int, (a.len() + needle.len()) as int) <==> apart(a, b)) by {
        lemma_at_parts(hay, a, needle, b);
    }
    if begins_with(hay, needle) {
        let b = hay.skip(needle.len() as int);
        assert(hay =~= hay.take(0) + needle + b);
        assert(hay =~= needle + b);
    }
    if exists|b: Seq<char>| hay == #[trigger] (needle + b) {
        let b = choose|b: Seq<char>| hay == #[trigger] (needle + b);
        assert(hay.subrange(0, needle.len() as int) =~= needle);
    }
}

/// Nothing but white space.
pub open spec fn blank(s: Seq<char>) -> bool {
    forall|i: int| 0 <= i < s.len() ==> white_space().contains(#[trigger] s[i] as u32)
}

/// No white space.
pub open spec fn unbroken(s: Seq<char>) -> bool {
    forall|i: int| 0 <= i < s.len() ==> !white_space().contains(#[trigger] s[i] as u32)
}

proof fn lemma_next_where(s: Seq<char>, from: int, spaces: bool)
    requires
        0 <= from <= s.len(),
    ensures
        from <= next_where(s, from, spaces) <= s.len(),
        forall|i: int|
            from <= i < next_where(s, from, spaces) ==> is_space(#[trigger] s[i]) != spaces,
        next_where(s, from, spaces) < s.len() ==> is_space(s[next_where(s, from, spaces)])
            == spaces,
    decreases s.len() - from,
{
    if from < s.len() && is_space(s[from]) != spaces {
        lemma_next_where(s, from + 1, spaces);
    }
}

/// Between white space and what follows a word, its first word is the word.
pub proof fn law_first_word(lead: Seq<char>, word: Seq<char>, rest: Seq<char>)
    requires
        blank(lead),
        unbroken(word),
        rest.len() > 0 ==> white_space().contains(rest[0] as u32),
        word.len() == 0 ==> rest.len() == 0,
    ensures
        first_word(lead + word + rest) == word,
{
    let s = lead + word + rest;
    let start = next_where(s, 0, false);
    let stop = next_where(s, start, true);
    lemma_next_where(s, 0, false);
    lemma_next_where(s, start, true);
    let (a, b) = (lead.len() as int, (lead.len() + word.len()) as int);
    if start < a {
        assert(s[start] == lead[start]);
        law_words_are_separated_by_white_space(s[start]);
    }
    if start > a && a < s.len() {
        assert(s[a] == word[0]);
        law_words_are_separated_by_white_space(s[a]);
    }
    assert(start == a);
    if stop < b {
        assert(s[stop] == word[stop - a]);
        law_words_are_separated_by_white_space(s[stop]);
    }
    if stop > b {
        assert(s[b] == rest[0]);
        law_words_are_separated_by_white_space(s[b]);
    }
    assert(s.subrange(start, stop) =~= word);
}

proof fn lemma_lead(lead: Seq<char>, s: Seq<char>)
    requires
        blank(lead),
        s.len() > 0 ==> !white_space().contains(s[0] as u32),
    ensures
        without_lead(lead + s) == s,
    decreases lead.len(),
{
    let all = lead + s;
    if lead.len() > 0 {
        law_words_are_separated_by_white_space(all[0]);
        assert(all[0] == lead[0]);
        assert(all.skip(1) =~= lead.skip(1) + s);
        assert(blank(lead.skip(1))) by {
            assert forall|i: int| 0 <= i < lead.skip(1).len() implies white_space().contains(
                #[trigger] lead.skip(1)[i] as u32,
            ) by {
                assert(lead.skip(1)[i] == lead[i + 1]);
            }
        }
        lemma_lead(lead.skip(1), s);
    } else {
        assert(all =~= s);
        if s.len() > 0 {
            law_words_are_separated_by_white_space(s[0]);
        }
    }
}

proof fn lemma_trail(s: Seq<char>, trail: Seq<char>)
    requires
        blank(trail),
        s.len() > 0 ==> !white_space().contains(s.last() as u32),
    ensures
        without_trail(s + trail) == s,
    decreases trail.len(),
{
    let all = s + trail;
    if trail.len() > 0 {
        law_words_are_separated_by_white_space(all.last());
        assert(all.last() == trail.last());
        assert(white_space().contains(trail[trail.len() - 1] as u32));
        assert(all.drop_last() =~= s + trail.drop_last());
        assert(blank(trail.drop_last())) by {
            assert forall|i: int| 0 <= i < trail.drop_last().len() implies white_space().contains(
                #[trigger] trail.drop_last()[i] as u32,
            ) by {
                assert(trail.drop_last()[i] == trail[i]);
            }
        }
        lemma_trail(s, trail.drop_last());
    } else {
        assert(all =~= s);
        if s.len() > 0 {
            law_words_are_separated_by_white_space(s.last());
        }
    }
}

/// Digits count by their places: those before `k` further digits count ten to the power of `k`
/// times as much. One digit counts itself.
pub proof fn law_digits_count_by_their_places(a: Seq<char>, b: Seq<char>, c: char)
    ensures
        decimal(a + b) == decimal(a) * pow(10, b.len()) + decimal(b),
        decimal(seq![c]) == c as u32 - '0' as u32,
    decreases b.len(),
{
    assert(seq![c].drop_last() =~= Seq::<char>::empty());
    assert(decimal(Seq::<char>::empty()) == 0);
    assert(seq![c].last() == c);
    if b.len() == 0 {
        assert(a + b =~= a);
        lemma_pow0(10);
    } else {
        let k = (b.len() - 1) as nat;
        assert((a + b).drop_last() =~= a + b.drop_last());
        law_digits_count_by_their_places(a, b.drop_last(), c);
        lemma_pow1(10);
        lemma_pow_adds(10, 1, k);
        let (x, p, q) = (decimal(a), pow(10, k), pow(10, b.len()));
        assert(10 * (x * p) == x * q) by (nonlinear_arith)
            requires
                q == 10 * p,
        ;
    }
}

/// What stands before a number: nothing or a plus sign.
pub open spec fn is_sign(s: Seq<char>) -> bool {
    s.len() == 0 || s == seq!['+']
}

/// Decimal digits are read as the number that they write, with or without a plus sign, whatever
/// white space is around them, if the number fits in 32 bits.
pub proof fn law_numbers_are_read(
    lead: Seq<char>,
    sign: Seq<char>,
    digits: Seq<char>,
    trail: Seq<char>,
)
    requires
        blank(lead),
        blank(trail),
        is_sign(sign),
        digits.len() > 0,
        forall|i: int| 0 <= i < digits.len() ==> '0' <= #[trigger] digits[i] <= '9',
    ensures
        number_in(lead + sign + digits + trail) == if decimal(digits) <= u32::MAX {
            Some(decimal(digits) as u32)
        } else {
            None
        },
{
    let t = sign + digits;
    let s = lead + sign + digits + trail;
    assert(s =~= lead + (t + trail));
    assert(t[t.len() - 1] == digits[digits.len() - 1]);
    if sign.len() > 0 {
        assert(t[0] == '+');
        assert(t.skip(1) =~= digits);
    } else {
        assert(t =~= digits);
        assert(t[0] == digits[0]);
    }
    lemma_lead(lead, t + trail);
    lemma_trail(t, trail);
    lemma_decimal_grows(digits, 0);
}

/// What is read as a number is nothing but decimal digits that write it, a plus sign or none
/// before them, and white space around.
pub proof fn law_only_numbers_are_read(s: Seq<char>)
    ensures
        number_in(s) matches Some(v) ==> exists|
            lead: Seq<char>,
            sign: Seq<char>,
            digits: Seq<char>,
            trail: Seq<char>,
        | #[trigger]
            writes(s, lead, sign, digits, trail) && decimal(digits) == v,
{
    if number_in(s) is Some {
        lemma_lead_is_blank(s);
        let rest = without_lead(s);
        lemma_trail_is_blank(rest);
        let t = without_trail(rest);
        let lead = s.take(s.len() - rest.len());
        let trail = rest.skip(t.len() as int);
        let (sign, digits) = if t.len() > 0 && t[0] == '+' {
            (seq!['+'], t.skip(1))
        } else {
            (Seq::<char>::empty(), t)
        };
        assert(sign + digits =~= t);
        assert(lead + sign + digits + trail =~= lead + (t + trail));
        assert(s =~= lead + rest);
        assert(writes(s, lead, sign, digits, trail));
        assert(t.len() == digits.len() + sign.len());
        lemma_decimal_grows(digits, 0);
    }
}

/// `s` is white space, a sign, digits, and white space again.
pub open spec fn writes(
    s: Seq<char>,
    lead: Seq<char>,
    sign: Seq<char>,
    digits: Seq<char>,
    trail: Seq<char>,
) -> bool {
    &&& s == lead + sign + digits + trail
    &&& blank(lead)
    &&& blank(trail)
    &&& is_sign(sign)
    &&& digits.len() > 0
    &&& forall|i: int| 0 <= i < digits.len() ==> '0' <= #[trigger] digits[i] <= '9'
}

proof fn lemma_lead_is_blank(s: Seq<char>)
    ensures
        without_lead(s).len() <= s.len(),
        s == s.take(s.len() - without_lead(s).len()) + without_lead(s),
        blank(s.take(s.len() - without_lead(s).len())),
    decreases s.len(),
{
    if s.len() > 0 && is_space(s[0]) {
        let r = s.skip(1);
        lemma_lead_is_blank(r);
        let n = s.len() - without_lead(s).len();
        law_words_are_separated_by_white_space(s[0]);
        assert(s.take(n) =~= seq![s[0]] + r.take(n - 1));
        assert(s =~= seq![s[0]] + r);
        assert(s =~= s.take(n) + without_lead(s));
        assert forall|i: int| 0 <= i < n implies white_space().contains(
            #[trigger] s.take(n)[i] as u32,
        ) by {
            if i > 0 {
                assert(r.take(n - 1)[i - 1] == s.take(n)[i]);
            }
        }
    } else {
        assert(s.take(0) + s =~= s);
    }
}

proof fn lemma_trail_is_blank(s: Seq<char>)
    ensures
        without_trail(s).len() <= s.len(),
        s == without_trail(s) + s.skip(without_trail(s).len() as int),
        blank(s.skip(without_trail(s).len() as int)),
    decreases s.len(),
{
    let n = without_trail(s).len() as int;
    if s.len() > 0 && is_space(s.last()) {
        let r = s.drop_last();
        lemma_trail_is_blank(r);
        law_words_are_separated_by_white_space(s.last());
        assert(s.skip(n) =~= r.skip(n).push(s.last()));
        assert(s =~= r.push(s.last()));
        assert(s =~= without_trail(s) + s.skip(n));
        assert forall|i: int| 0 <= i < s.skip(n).len() implies white_space().contains(
            #[trigger] s.skip(n)[i] as u32,
        ) by {
            if i < r.skip(n).len() {
                assert(r.skip(n)[i] == s.skip(n)[i]);
            }
        }
    } else {
        assert(s + s.skip(n) =~= s);
    }
}

} // verus!
