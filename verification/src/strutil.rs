//! String utilities: splitting and joining on a separator character,
//! decimal numerals, and substring search, with executable counterparts
//! proved against the specification functions.

use vstd::prelude::*;

verus! {

/// Relies on std's `String::push`: appends one character at the end.
pub assume_specification[ String::push ](s: &mut String, ch: char)
    ensures
        final(s)@ == old(s)@.push(ch),
;

// ---------------------------------------------------------------------------
// Characters
// ---------------------------------------------------------------------------

pub open spec fn is_digit(c: char) -> bool {
    48 <= c as u32 <= 57
}

pub open spec fn digit_val(c: char) -> nat {
    (c as u32 - 48) as nat
}

pub open spec fn digit_char(d: nat) -> char {
    ((48 + d) as u32) as char
}

/// The executable digit-to-character table.
pub fn digit_to_char(d: u64) -> (c: char)
    requires
        d < 10,
    ensures
        c == digit_char(d as nat),
        is_digit(c),
        digit_val(c) == d as nat,
{
    if d == 0 { '0' }
    else if d == 1 { '1' }
    else if d == 2 { '2' }
    else if d == 3 { '3' }
    else if d == 4 { '4' }
    else if d == 5 { '5' }
    else if d == 6 { '6' }
    else if d == 7 { '7' }
    else if d == 8 { '8' }
    else { '9' }
}

/// The executable character-to-digit table.
pub fn char_to_digit(c: char) -> (d: Option<u64>)
    ensures
        d matches Some(v) ==> is_digit(c) && v as nat == digit_val(c) && v < 10,
        d is None ==> !is_digit(c),
{
    match c {
        '0' => Some(0),
        '1' => Some(1),
        '2' => Some(2),
        '3' => Some(3),
        '4' => Some(4),
        '5' => Some(5),
        '6' => Some(6),
        '7' => Some(7),
        '8' => Some(8),
        '9' => Some(9),
        _ => None,
    }
}

// ---------------------------------------------------------------------------
// Decimal numerals
// ---------------------------------------------------------------------------

/// The canonical decimal numeral of `n` (no leading zeros).
pub open spec fn dec_str(n: nat) -> Seq<char>
    decreases n,
{
    if n < 10 {
        seq![digit_char(n)]
    } else {
        dec_str(n / 10).push(digit_char(n % 10))
    }
}

/// The value of a digit string, most significant digit first.
pub open spec fn dec_val(s: Seq<char>) -> nat
    decreases s.len(),
{
    if s.len() == 0 {
        0
    } else {
        dec_val(s.drop_last()) * 10 + digit_val(s.last())
    }
}

pub open spec fn all_digits(s: Seq<char>) -> bool {
    forall|i: int| 0 <= i < s.len() ==> is_digit(#[trigger] s[i])
}

/// A valid `u64` numeral: nonempty, all digits, no leading zero except for
/// the numeral `0` itself, and a value within `u64` range.
pub open spec fn is_u64_numeral(s: Seq<char>) -> bool {
    &&& s.len() > 0
    &&& all_digits(s)
    &&& (s[0] == digit_char(0) ==> s.len() == 1)
    &&& dec_val(s) <= u64::MAX
}

pub proof fn lemma_dec_str_is_numeral(n: nat)
    ensures
        dec_str(n).len() >= 1,
        all_digits(dec_str(n)),
        dec_val(dec_str(n)) == n,
        dec_str(n)[0] == digit_char(0) ==> n == 0 && dec_str(n).len() == 1,
    decreases n,
{
    if n < 10 {
        assert(dec_str(n) == seq![digit_char(n)]);
        assert(dec_val(seq![digit_char(n)].drop_last()) == 0) by {
            assert(seq![digit_char(n)].drop_last() =~= Seq::<char>::empty());
        }
        assert(digit_val(digit_char(n)) == n);
        if dec_str(n)[0] == digit_char(0) {
            assert(digit_char(n) as u32 == 48 + n);
        }
    } else {
        lemma_dec_str_is_numeral(n / 10);
        let s = dec_str(n);
        let p = dec_str(n / 10);
        assert(s == p.push(digit_char(n % 10)));
        assert(s.drop_last() =~= p);
        assert(s.last() == digit_char(n % 10));
        assert(digit_val(digit_char(n % 10)) == n % 10);
        assert(dec_val(s) == (n / 10) * 10 + n % 10);
        assert((n / 10) * 10 + n % 10 == n) by (nonlinear_arith);
        assert(s[0] == p[0]);
        if s[0] == digit_char(0) {
            assert(p.len() == 1 && n / 10 == 0);
            assert(false);
        }
    }
}

/// A digit character is recovered from its value.
proof fn lemma_digit_char_of_val(c: char)
    requires
        is_digit(c),
    ensures
        digit_char(digit_val(c)) == c,
        digit_val(c) < 10,
{
    assert(digit_char(digit_val(c)) as u32 == c as u32);
}

/// A digit string with no redundant leading zero and a positive first
/// digit has a positive value.
proof fn lemma_dec_val_positive(s: Seq<char>)
    requires
        s.len() >= 1,
        all_digits(s),
        s[0] != digit_char(0),
    ensures
        dec_val(s) >= 1,
    decreases s.len(),
{
    if s.len() == 1 {
        assert(is_digit(s[0]));
        lemma_digit_char_of_val(s[0]);
        assert(digit_val(s[0]) >= 1) by {
            if digit_val(s[0]) == 0 {
                assert(digit_char(digit_val(s[0])) == digit_char(0));
            }
        }
    } else {
        assert(s.drop_last()[0] == s[0]);
        assert(forall|i: int| 0 <= i < s.drop_last().len() ==> s.drop_last()[i] == s[i]);
        lemma_dec_val_positive(s.drop_last());
        assert(dec_val(s.drop_last()) * 10 >= 10) by (nonlinear_arith)
            requires
                dec_val(s.drop_last()) >= 1,
        ;
    }
}

/// Valid numerals denote their values uniquely: reading the value back
/// gives the same digit string.
pub proof fn lemma_numeral_unique(s: Seq<char>)
    requires
        s.len() >= 1,
        all_digits(s),
        s[0] == digit_char(0) ==> s.len() == 1,
    ensures
        dec_str(dec_val(s)) == s,
    decreases s.len(),
{
    let n = dec_val(s);
    if s.len() == 1 {
        assert(is_digit(s[0]));
        lemma_digit_char_of_val(s[0]);
        assert(s.drop_last() =~= Seq::<char>::empty());
        assert(dec_val(Seq::<char>::empty()) == 0);
        assert(s.last() == s[0]);
        assert(n == digit_val(s[0]) && n < 10);
        assert(dec_str(n) =~= s);
    } else {
        let d = s.drop_last();
        assert(forall|i: int| 0 <= i < d.len() ==> d[i] == s[i]);
        assert(d[0] != digit_char(0)) by {
            if d[0] == digit_char(0) {
                assert(s[0] == digit_char(0));
            }
        }
        lemma_dec_val_positive(d);
        lemma_numeral_unique(d);
        assert(n == dec_val(d) * 10 + digit_val(s.last()));
        assert(n / 10 == dec_val(d) && n % 10 == digit_val(s.last())) by (nonlinear_arith)
            requires
                n == dec_val(d) * 10 + digit_val(s.last()),
                digit_val(s.last()) < 10,
        ;
        assert(n >= 10) by (nonlinear_arith)
            requires
                dec_val(d) >= 1,
                n == dec_val(d) * 10 + digit_val(s.last()),
        ;
        assert(dec_str(n) == dec_str(dec_val(d)).push(digit_char(digit_val(s.last()))));
        assert(is_digit(s[s.len() - 1]));
        lemma_digit_char_of_val(s.last());
        assert(dec_str(n) =~= s);
    }
}

/// The numeral of a `u64` value.
pub fn u64_to_dec(n: u64) -> (s: String)
    ensures
        s@ == dec_str(n as nat),
        is_u64_numeral(s@),
{
    let mut digits: Vec<char> = Vec::new();
    let mut cur: u64 = n;
    // Collect the digits, least significant first.
    while cur >= 10
        invariant
            dec_str(n as nat) == dec_str(cur as nat) + digits@.reverse(),
        decreases cur,
    {
        let d = digit_to_char(cur % 10);
        let prev: Ghost<Seq<char>> = Ghost(digits@);
        digits.push(d);
        proof {
            assert(digits@.reverse() =~= seq![d] + prev@.reverse());
            assert(dec_str(cur as nat) == dec_str((cur / 10) as nat).push(digit_char(
                (cur % 10) as nat,
            )));
            assert(dec_str((cur / 10) as nat) + digits@.reverse() =~= dec_str(cur as nat)
                + prev@.reverse());
        }
        cur = cur / 10;
    }
    let d0 = digit_to_char(cur);
    let mut s = String::new();
    s.push(d0);
    proof {
        assert(s@ =~= dec_str(cur as nat));
    }
    let mut i: usize = digits.len();
    while i > 0
        invariant
            i <= digits.len(),
            s@ == dec_str(cur as nat) + digits@.reverse().take(digits@.len() - i),
            dec_str(n as nat) == dec_str(cur as nat) + digits@.reverse(),
            cur < 10,
        decreases i,
    {
        let c = digits[i - 1];
        let prev: Ghost<Seq<char>> = Ghost(s@);
        s.push(c);
        proof {
            assert(digits@.reverse()[digits@.len() - i] == digits@[i - 1]);
            assert(s@ =~= dec_str(cur as nat) + digits@.reverse().take(
                digits@.len() - (i - 1),
            ));
        }
        i = i - 1;
    }
    proof {
        assert(digits@.reverse().take(digits@.len() as int) =~= digits@.reverse());
        lemma_dec_str_is_numeral(n as nat);
    }
    s
}

/// Extending a digit string on the right can only increase its value.
proof fn lemma_dec_val_prefix_le(s: Seq<char>, i: int)
    requires
        0 <= i <= s.len(),
    ensures
        dec_val(s.take(i)) <= dec_val(s),
    decreases s.len() - i,
{
    if i < s.len() {
        lemma_dec_val_prefix_le(s, i + 1);
        let t = s.take(i + 1);
        assert(t.drop_last() =~= s.take(i));
        assert(dec_val(t) == dec_val(s.take(i)) * 10 + digit_val(t.last()));
        assert(dec_val(s.take(i)) * 10 >= dec_val(s.take(i))) by (nonlinear_arith);
    } else {
        assert(s.take(i) =~= s);
    }
}

/// Parse a decimal numeral.  Returns `None` exactly on strings that are not
/// valid `u64` numerals (empty, a stray character, a redundant leading zero,
/// or a value that overflows `u64`).
pub fn parse_u64_dec(s: &str) -> (r: Option<u64>)
    ensures
        r matches Some(v) ==> is_u64_numeral(s@) && v as nat == dec_val(s@),
        r is None ==> !is_u64_numeral(s@),
{
    let n = s.unicode_len();
    if n == 0 {
        return None;
    }
    let mut cur: u64 = 0;
    let mut i: usize = 0;
    while i < n
        invariant
            0 <= i <= n,
            n == s@.len(),
            all_digits(s@.take(i as int)),
            cur as nat == dec_val(s@.take(i as int)),
        decreases n - i,
    {
        let c = s.get_char(i);
        match char_to_digit(c) {
            Some(d) => {
                let next10 = match cur.checked_mul(10) {
                    Some(m) => m,
                    None => {
                        proof {
                            let p = s@.take(i as int + 1);
                            assert(p.drop_last() =~= s@.take(i as int));
                            assert(dec_val(p) > u64::MAX);
                            lemma_dec_val_prefix_le(s@, i as int + 1);
                        }
                        return None;
                    },
                };
                let next = match next10.checked_add(d) {
                    Some(m) => m,
                    None => {
                        proof {
                            let p = s@.take(i as int + 1);
                            assert(p.drop_last() =~= s@.take(i as int));
                            assert(dec_val(p) > u64::MAX);
                            lemma_dec_val_prefix_le(s@, i as int + 1);
                        }
                        return None;
                    },
                };
                proof {
                    let p = s@.take(i as int + 1);
                    assert(p.drop_last() =~= s@.take(i as int));
                    assert(p.last() == s@[i as int]);
                }
                cur = next;
            },
            None => {
                return None;
            },
        }
        i = i + 1;
    }
    proof {
        assert(s@.take(n as int) =~= s@);
    }
    // Reject a redundant leading zero.
    if n > 1 {
        let c0 = s.get_char(0);
        if c0 == '0' {
            proof {
                assert(digit_char(0) as u32 == 48);
                assert('0' as u32 == 48);
            }
            return None;
        }
    }
    proof {
        if s@[0] == digit_char(0) {
            assert(s@[0] as u32 == 48);
        }
    }
    Some(cur)
}

// ---------------------------------------------------------------------------
// Splitting and joining
// ---------------------------------------------------------------------------

/// Split `s` on every occurrence of `c`.  Always returns at least one
/// (possibly empty) segment; no segment contains `c`.
pub open spec fn split_on(s: Seq<char>, c: char) -> Seq<Seq<char>>
    decreases s.len(),
{
    if s.len() == 0 {
        seq![s]
    } else if s.last() == c {
        split_on(s.drop_last(), c).push(Seq::empty())
    } else {
        let rec = split_on(s.drop_last(), c);
        rec.drop_last().push(rec.last().push(s.last()))
    }
}

/// Join segments with the separator `c` between them.
pub open spec fn join_on(parts: Seq<Seq<char>>, c: char) -> Seq<char>
    decreases parts.len(),
{
    if parts.len() == 0 {
        Seq::empty()
    } else if parts.len() == 1 {
        parts[0]
    } else {
        join_on(parts.drop_last(), c).push(c) + parts.last()
    }
}

pub open spec fn seq_contains_char(s: Seq<char>, c: char) -> bool {
    exists|i: int| 0 <= i < s.len() && s[i] == c
}

pub proof fn lemma_split_on_spec(s: Seq<char>, c: char)
    ensures
        split_on(s, c).len() >= 1,
        forall|k: int| 0 <= k < split_on(s, c).len() ==> !seq_contains_char(
            #[trigger] split_on(s, c)[k],
            c,
        ),
    decreases s.len(),
{
    if s.len() == 0 {
        assert forall|k: int| 0 <= k < split_on(s, c).len() implies !seq_contains_char(
            #[trigger] split_on(s, c)[k],
            c,
        ) by {
            assert(split_on(s, c)[k] == s);
        }
    } else {
        lemma_split_on_spec(s.drop_last(), c);
        let rec = split_on(s.drop_last(), c);
        let parts = split_on(s, c);
        if s.last() == c {
            assert forall|k: int| 0 <= k < parts.len() implies !seq_contains_char(
                #[trigger] parts[k],
                c,
            ) by {
                if k < rec.len() {
                    assert(parts[k] == rec[k]);
                } else {
                    assert(parts[k] == Seq::<char>::empty());
                }
            }
        } else {
            assert forall|k: int| 0 <= k < parts.len() implies !seq_contains_char(
                #[trigger] parts[k],
                c,
            ) by {
                if k < rec.len() - 1 {
                    assert(parts[k] == rec[k]);
                } else {
                    assert(parts[k] == rec.last().push(s.last()));
                    assert(!seq_contains_char(rec[rec.len() - 1], c));
                    if seq_contains_char(rec.last().push(s.last()), c) {
                        let j = choose|j: int|
                            0 <= j < rec.last().push(s.last()).len() && #[trigger] rec.last().push(
                                s.last(),
                            )[j] == c;
                        assert(j < rec.last().len() ==> rec.last()[j] == c);
                    }
                }
            }
        }
    }
}

/// Joining after extending the last segment extends the join.
proof fn lemma_join_push_last(parts: Seq<Seq<char>>, c: char, ch: char)
    requires
        parts.len() >= 1,
    ensures
        join_on(parts.drop_last().push(parts.last().push(ch)), c) == join_on(parts, c).push(ch),
{
    let parts2 = parts.drop_last().push(parts.last().push(ch));
    if parts.len() == 1 {
        assert(parts2.len() == 1);
        assert(join_on(parts2, c) == parts2[0]);
        assert(parts2[0] == parts[0].push(ch));
    } else {
        assert(parts2.drop_last() =~= parts.drop_last());
        assert(join_on(parts2, c) == join_on(parts.drop_last(), c).push(c) + parts.last().push(
            ch,
        ));
        assert(join_on(parts.drop_last(), c).push(c) + parts.last().push(ch) =~= (join_on(
            parts.drop_last(),
            c,
        ).push(c) + parts.last()).push(ch));
    }
}

/// Joining the result of a split restores the original string.
pub proof fn lemma_join_split(s: Seq<char>, c: char)
    ensures
        join_on(split_on(s, c), c) == s,
    decreases s.len(),
{
    if s.len() == 0 {
    } else if s.last() == c {
        lemma_join_split(s.drop_last(), c);
        let rec = split_on(s.drop_last(), c);
        lemma_split_on_spec(s.drop_last(), c);
        let parts = rec.push(Seq::empty());
        assert(parts.drop_last() =~= rec);
        assert(join_on(parts, c) == join_on(rec, c).push(c) + Seq::<char>::empty());
        assert(join_on(rec, c).push(c) + Seq::<char>::empty() =~= s.drop_last().push(c));
        assert(s.drop_last().push(c) =~= s);
    } else {
        lemma_join_split(s.drop_last(), c);
        lemma_split_on_spec(s.drop_last(), c);
        let rec = split_on(s.drop_last(), c);
        lemma_join_push_last(rec, c, s.last());
        assert(s.drop_last().push(s.last()) =~= s);
    }
}

pub proof fn lemma_no_char_split_whole(s: Seq<char>, c: char)
    requires
        !seq_contains_char(s, c),
    ensures
        split_on(s, c) == seq![s],
    decreases s.len(),
{
    if s.len() > 0 {
        assert(s.last() != c);
        assert(!seq_contains_char(s.drop_last(), c)) by {
            if seq_contains_char(s.drop_last(), c) {
                let j = choose|j: int|
                    0 <= j < s.drop_last().len() && #[trigger] s.drop_last()[j] == c;
                assert(s[j] == c);
            }
        }
        lemma_no_char_split_whole(s.drop_last(), c);
        let rec = split_on(s.drop_last(), c);
        assert(rec == seq![s.drop_last()]);
        assert(rec.drop_last() =~= Seq::<Seq<char>>::empty());
        assert(split_on(s, c) =~= seq![s.drop_last().push(s.last())]);
        assert(s.drop_last().push(s.last()) =~= s);
    }
}

/// Splitting distributes over a separator between two parts.
pub proof fn lemma_split_concat(a: Seq<char>, b: Seq<char>, c: char)
    ensures
        split_on(a + seq![c] + b, c) == split_on(a, c) + split_on(b, c),
    decreases b.len(),
{
    if b.len() == 0 {
        assert(a + seq![c] + b =~= a.push(c));
        assert(split_on(a.push(c), c) == split_on(a, c).push(Seq::empty())) by {
            assert((a.push(c)).last() == c);
            assert((a.push(c)).drop_last() =~= a);
        }
        assert(split_on(b, c) =~= seq![b]);
        assert(b =~= Seq::<char>::empty());
        assert(split_on(a, c).push(Seq::empty()) =~= split_on(a, c) + seq![b]);
    } else {
        lemma_split_concat(a, b.drop_last(), c);
        let s = a + seq![c] + b;
        assert(s.last() == b.last());
        assert(s.drop_last() =~= a + seq![c] + b.drop_last());
        let rec = split_on(a, c) + split_on(b.drop_last(), c);
        assert(split_on(s.drop_last(), c) == rec);
        if b.last() == c {
            assert(split_on(s, c) == rec.push(Seq::empty()));
            assert(split_on(b, c) == split_on(b.drop_last(), c).push(Seq::empty())) by {
                assert(b.drop_last().push(c) =~= b);
                assert(split_on(b.drop_last().push(c), c) == split_on(b.drop_last(), c).push(
                    Seq::<char>::empty(),
                ));
            }
            assert(rec.push(Seq::<char>::empty()) =~= split_on(a, c) + split_on(b, c));
        } else {
            assert(split_on(s, c) == rec.drop_last().push(rec.last().push(b.last())));
            let recb = split_on(b.drop_last(), c);
            assert(split_on(b, c) == recb.drop_last().push(recb.last().push(b.last()))) by {
                assert(b.drop_last().push(b.last()) =~= b);
            }
            assert(rec.drop_last() =~= split_on(a, c) + recb.drop_last());
            assert(rec.last() == recb.last());
            assert(rec.drop_last().push(rec.last().push(b.last())) =~= split_on(a, c) + split_on(
                b,
                c,
            ));
        }
    }
}

/// Joining peels off the first segment.
pub proof fn lemma_join_first(parts: Seq<Seq<char>>, c: char)
    requires
        parts.len() >= 2,
    ensures
        join_on(parts, c) == parts[0] + seq![c] + join_on(parts.drop_first(), c),
    decreases parts.len(),
{
    if parts.len() == 2 {
        assert(parts.drop_last() =~= seq![parts[0]]);
        assert(join_on(seq![parts[0]], c) == parts[0]);
        assert(parts.drop_first() =~= seq![parts[1]]);
        assert(join_on(seq![parts[1]], c) == parts[1]);
        assert(join_on(parts, c) =~= parts[0] + seq![c] + join_on(parts.drop_first(), c));
    } else {
        lemma_join_first(parts.drop_last(), c);
        assert(parts.drop_last()[0] == parts[0]);
        assert(parts.drop_first().len() >= 2);
        assert(parts.drop_first().drop_last() =~= parts.drop_last().drop_first());
        assert(parts.drop_first().last() == parts.last());
        assert(join_on(parts.drop_first(), c) == join_on(
            parts.drop_first().drop_last(),
            c,
        ).push(c) + parts.drop_first().last());
        assert(join_on(parts, c) =~= parts[0] + seq![c] + join_on(parts.drop_first(), c));
    }
}

/// Joining splits at any interior point.
pub proof fn lemma_join_concat(parts: Seq<Seq<char>>, c: char, k: int)
    requires
        1 <= k < parts.len(),
    ensures
        join_on(parts, c) == join_on(parts.take(k), c) + seq![c] + join_on(parts.skip(k), c),
    decreases parts.len(),
{
    if k == parts.len() - 1 {
        assert(parts.take(k) =~= parts.drop_last());
        assert(parts.skip(k) =~= seq![parts.last()]);
        assert(join_on(seq![parts.last()], c) == parts.last());
        assert(join_on(parts, c) == join_on(parts.drop_last(), c).push(c) + parts.last());
        assert(join_on(parts, c) =~= join_on(parts.take(k), c) + seq![c] + join_on(
            parts.skip(k),
            c,
        ));
    } else {
        lemma_join_concat(parts.drop_last(), c, k);
        assert(parts.drop_last().take(k) =~= parts.take(k));
        assert(parts.drop_last().skip(k) =~= parts.skip(k).drop_last());
        assert(parts.skip(k).len() >= 2);
        assert(parts.skip(k).last() == parts.last());
        assert(join_on(parts.skip(k), c) == join_on(parts.skip(k).drop_last(), c).push(c)
            + parts.skip(k).last());
        assert(join_on(parts, c) == join_on(parts.drop_last(), c).push(c) + parts.last());
        assert(join_on(parts, c) =~= join_on(parts.take(k), c) + seq![c] + join_on(
            parts.skip(k),
            c,
        ));
    }
}

/// The segments of a path that denote real components: nonempty and not
/// `.`, as a filesystem path parser would keep them.
pub open spec fn real_segments(parts: Seq<Seq<char>>) -> Seq<Seq<char>>
    decreases parts.len(),
{
    if parts.len() == 0 {
        parts
    } else {
        let rest = real_segments(parts.drop_last());
        if parts.last().len() > 0 && parts.last() != seq!['.'] {
            rest.push(parts.last())
        } else {
            rest
        }
    }
}

/// Splitting never introduces characters: a segment holds only characters
/// of the split string.
pub proof fn lemma_split_segment_chars(s: Seq<char>, c: char, x: char)
    requires
        !seq_contains_char(s, x),
    ensures
        forall|k: int| 0 <= k < split_on(s, c).len() ==> !seq_contains_char(
            #[trigger] split_on(s, c)[k],
            x,
        ),
    decreases s.len(),
{
    if s.len() == 0 {
        assert forall|k: int| 0 <= k < split_on(s, c).len() implies !seq_contains_char(
            #[trigger] split_on(s, c)[k],
            x,
        ) by {
            assert(split_on(s, c)[k] == s);
        }
    } else {
        assert(!seq_contains_char(s.drop_last(), x)) by {
            if seq_contains_char(s.drop_last(), x) {
                let j = choose|j: int|
                    0 <= j < s.drop_last().len() && #[trigger] s.drop_last()[j] == x;
                assert(s[j] == x);
            }
        }
        lemma_split_segment_chars(s.drop_last(), c, x);
        let rec = split_on(s.drop_last(), c);
        let parts = split_on(s, c);
        assert(s.last() != x);
        assert forall|k: int| 0 <= k < parts.len() implies !seq_contains_char(
            #[trigger] parts[k],
            x,
        ) by {
            if s.last() == c {
                if k < rec.len() {
                    assert(parts[k] == rec[k]);
                } else {
                    assert(parts[k] == Seq::<char>::empty());
                }
            } else {
                if k < rec.len() - 1 {
                    assert(parts[k] == rec[k]);
                } else {
                    assert(parts[k] == rec.last().push(s.last()));
                    if seq_contains_char(rec.last().push(s.last()), x) {
                        let j = choose|j: int|
                            0 <= j < rec.last().push(s.last()).len() && #[trigger] rec.last().push(
                                s.last(),
                            )[j] == x;
                        assert(j < rec.last().len() ==> rec.last()[j] == x);
                        assert(!seq_contains_char(rec[rec.len() - 1], x));
                    }
                }
            }
        }
    }
}

/// The index of the first occurrence of `c`, or the length if absent.
pub open spec fn first_index_of(s: Seq<char>, c: char) -> int
    decreases s.len(),
{
    if s.len() == 0 {
        0
    } else if seq_contains_char(s.drop_last(), c) {
        first_index_of(s.drop_last(), c)
    } else if s.last() == c {
        s.len() - 1
    } else {
        s.len() as int
    }
}

pub proof fn lemma_first_index_of_spec(s: Seq<char>, c: char)
    ensures
        0 <= first_index_of(s, c) <= s.len(),
        first_index_of(s, c) < s.len() ==> s[first_index_of(s, c)] == c,
        forall|j: int| 0 <= j < first_index_of(s, c) ==> s[j] != c,
        !seq_contains_char(s, c) ==> first_index_of(s, c) == s.len(),
    decreases s.len(),
{
    if s.len() > 0 {
        lemma_first_index_of_spec(s.drop_last(), c);
        if seq_contains_char(s.drop_last(), c) {
            let j = choose|j: int| 0 <= j < s.drop_last().len() && #[trigger] s.drop_last()[j]
                == c;
            assert(s[j] == c);
            assert(s[first_index_of(s.drop_last(), c)] == s.drop_last()[first_index_of(
                s.drop_last(),
                c,
            )]);
            assert forall|j2: int| 0 <= j2 < first_index_of(s, c) implies s[j2] != c by {
                assert(s.drop_last()[j2] == s[j2]);
            }
        } else {
            assert forall|j2: int| 0 <= j2 < first_index_of(s, c) implies s[j2] != c by {
                if j2 < s.len() - 1 {
                    assert(s.drop_last()[j2] == s[j2]);
                    if s[j2] == c {
                        assert(seq_contains_char(s.drop_last(), c));
                    }
                }
            }
            if s.last() != c && seq_contains_char(s, c) {
                let j = choose|j: int| 0 <= j < s.len() && s[j] == c;
                assert(s.drop_last()[j] == c);
            }
        }
    }
}

/// The first segment of a split is the prefix up to the first separator.
pub proof fn lemma_split_first_segment(s: Seq<char>, c: char)
    ensures
        split_on(s, c)[0] == s.take(first_index_of(s, c)),
    decreases s.len(),
{
    if s.len() == 0 {
        assert(s.take(0) =~= s);
    } else {
        lemma_split_first_segment(s.drop_last(), c);
        lemma_first_index_of_spec(s.drop_last(), c);
        let rec = split_on(s.drop_last(), c);
        if s.last() == c {
            assert(split_on(s, c)[0] == rec[0]);
            if seq_contains_char(s.drop_last(), c) {
                assert(s.take(first_index_of(s, c)) =~= s.drop_last().take(
                    first_index_of(s.drop_last(), c),
                ));
            } else {
                assert(first_index_of(s, c) == s.len() - 1);
                assert(s.take(s.len() - 1) =~= s.drop_last());
                assert(rec[0] == s.drop_last().take(s.drop_last().len() as int));
                assert(s.drop_last().take(s.drop_last().len() as int) =~= s.drop_last());
            }
        } else {
            if seq_contains_char(s.drop_last(), c) {
                assert(rec.len() >= 2) by {
                    let j = choose|j: int|
                        0 <= j < s.drop_last().len() && #[trigger] s.drop_last()[j] == c;
                    lemma_split_on_spec(s.drop_last(), c);
                    if rec.len() == 1 {
                        lemma_join_split(s.drop_last(), c);
                        assert(join_on(rec, c) == rec[0]);
                        assert(!seq_contains_char(rec[0], c));
                    }
                }
                assert(split_on(s, c)[0] == rec[0]);
                assert(s.take(first_index_of(s, c)) =~= s.drop_last().take(
                    first_index_of(s.drop_last(), c),
                ));
            } else {
                assert(rec.len() == 1) by {
                    lemma_no_char_split_whole(s.drop_last(), c);
                }
                assert(split_on(s, c)[0] == rec[0].push(s.last()));
                assert(rec[0] == s.drop_last().take(s.drop_last().len() as int));
                assert(s.drop_last().take(s.drop_last().len() as int) =~= s.drop_last());
                assert(first_index_of(s, c) == s.len());
                assert(s.take(s.len() as int) =~= s.drop_last().push(s.last()));
            }
        }
    }
}

/// A concatenation contains a character exactly when one part does.
pub proof fn lemma_contains_concat(a: Seq<char>, b: Seq<char>, x: char)
    ensures
        seq_contains_char(a + b, x) == (seq_contains_char(a, x) || seq_contains_char(b, x)),
{
    if seq_contains_char(a + b, x) {
        let j = choose|j: int| 0 <= j < (a + b).len() && (a + b)[j] == x;
        if j < a.len() {
            assert(a[j] == x);
        } else {
            assert(b[j - a.len()] == x);
        }
    }
    if seq_contains_char(a, x) {
        let j = choose|j: int| 0 <= j < a.len() && a[j] == x;
        assert((a + b)[j] == x);
    }
    if seq_contains_char(b, x) {
        let j = choose|j: int| 0 <= j < b.len() && b[j] == x;
        assert((a + b)[a.len() + j] == x);
    }
}

/// Clones a range of a string vector.
pub fn clone_range(v: &Vec<String>, from: usize, to: usize) -> (r: Vec<String>)
    requires
        from <= to <= v@.len(),
    ensures
        r@.map_values(|p: String| p@) == v@.map_values(|p: String| p@).subrange(
            from as int,
            to as int,
        ),
{
    let mut r: Vec<String> = Vec::new();
    let mut i: usize = from;
    proof {
        assert(r@.map_values(|p: String| p@) =~= v@.map_values(|p: String| p@).subrange(
            from as int,
            from as int,
        ));
    }
    while i < to
        invariant
            from <= i <= to <= v@.len(),
            r@.map_values(|p: String| p@) == v@.map_values(|p: String| p@).subrange(
                from as int,
                i as int,
            ),
        decreases to - i,
    {
        let ghost pre = r@.map_values(|p: String| p@);
        r.push(v[i].clone());
        proof {
            assert(v@.map_values(|p: String| p@)[i as int] == v@[i as int]@);
            assert(r@.map_values(|p: String| p@) =~= pre.push(v@[i as int]@));
            assert(v@.map_values(|p: String| p@).subrange(from as int, i as int + 1) =~= v@
                .map_values(|p: String| p@).subrange(from as int, i as int).push(
                v@.map_values(|p: String| p@)[i as int],
            ));
        }
        i = i + 1;
    }
    r
}

/// Tests whether a string contains a character.
pub fn str_contains_char(s: &str, c: char) -> (r: bool)
    ensures
        r == seq_contains_char(s@, c),
{
    let n = s.unicode_len();
    let mut i: usize = 0;
    while i < n
        invariant
            0 <= i <= n,
            n == s@.len(),
            forall|k: int| 0 <= k < i ==> s@[k] != c,
        decreases n - i,
    {
        if s.get_char(i) == c {
            return true;
        }
        i = i + 1;
    }
    false
}

/// Splits a string on a separator character.
pub fn split_string(s: &str, c: char) -> (parts: Vec<String>)
    ensures
        parts@.map_values(|p: String| p@) == split_on(s@, c),
{
    let n = s.unicode_len();
    let mut parts: Vec<String> = Vec::new();
    let mut cur = String::new();
    let mut i: usize = 0;
    proof {
        assert(s@.take(0) =~= Seq::<char>::empty());
        assert(parts@.map_values(|p: String| p@).push(cur@) =~= seq![s@.take(0)]);
    }
    while i < n
        invariant
            0 <= i <= n,
            n == s@.len(),
            split_on(s@.take(i as int), c) == parts@.map_values(|p: String| p@).push(cur@),
        decreases n - i,
    {
        let ch = s.get_char(i);
        let ghost pre = s@.take(i as int);
        let ghost pmap = parts@.map_values(|p: String| p@);
        if ch == c {
            parts.push(cur);
            cur = String::new();
            proof {
                assert(s@.take(i as int + 1) =~= pre.push(c));
                assert((pre.push(c)).last() == c);
                assert((pre.push(c)).drop_last() =~= pre);
                assert(split_on(pre.push(c), c) == split_on(pre, c).push(Seq::empty()));
                assert(parts@.map_values(|p: String| p@) =~= pmap.push(split_on(pre, c).last()));
                assert(parts@.map_values(|p: String| p@).push(cur@) =~= split_on(pre, c).push(
                    Seq::empty(),
                ));
            }
        } else {
            let ghost oldcur = cur@;
            cur.push(ch);
            proof {
                assert(s@.take(i as int + 1) =~= pre.push(ch));
                assert((pre.push(ch)).last() == ch);
                assert((pre.push(ch)).drop_last() =~= pre);
                let rec = split_on(pre, c);
                assert(split_on(pre.push(ch), c) == rec.drop_last().push(rec.last().push(ch)));
                assert(rec.drop_last() =~= pmap);
                assert(rec.last() == oldcur);
                assert(parts@.map_values(|p: String| p@).push(cur@) =~= pmap.push(
                    oldcur.push(ch),
                ));
            }
        }
        i = i + 1;
    }
    proof {
        assert(s@.take(n as int) =~= s@);
    }
    parts.push(cur);
    proof {
        assert(parts@.map_values(|p: String| p@) =~= split_on(s@, c));
    }
    parts
}

/// Joins segments with a separator character between them.
pub fn join_strings(parts: &Vec<String>, c: char) -> (s: String)
    ensures
        s@ == join_on(parts@.map_values(|p: String| p@), c),
{
    let ghost pm = parts@.map_values(|p: String| p@);
    let mut s = String::new();
    let mut i: usize = 0;
    if parts.len() == 0 {
        return s;
    }
    while i < parts.len()
        invariant
            0 <= i <= parts@.len(),
            pm == parts@.map_values(|p: String| p@),
            s@ == join_on(pm.take(i as int), c),
        decreases parts@.len() - i,
    {
        let ghost pre = pm.take(i as int);
        if i > 0 {
            s.push(c);
        }
        let part = &parts[i];
        append_str(&mut s, part);
        proof {
            assert(pm.take(i as int + 1) =~= pre.push(pm[i as int]));
            if i == 0 {
                assert(pre.push(pm[0]).len() == 1);
                assert(join_on(pre.push(pm[0]), c) == pre.push(pm[0])[0]);
                assert(s@ =~= pm[0]);
            } else {
                assert(pre.push(pm[i as int]).drop_last() =~= pre);
                assert(join_on(pre.push(pm[i as int]), c) == join_on(pre, c).push(c)
                    + pm[i as int]);
                assert(s@ =~= join_on(pre, c).push(c) + pm[i as int]);
            }
        }
        i = i + 1;
    }
    proof {
        assert(pm.take(pm.len() as int) =~= pm);
    }
    s
}

/// Appends a string to another, character by character.
pub fn append_str(s: &mut String, other: &String) -> (r: ())
    ensures
        final(s)@ == old(s)@ + other@,
{
    let n = other.as_str().unicode_len();
    let mut i: usize = 0;
    proof {
        assert(s@ =~= old(s)@ + other@.take(0));
    }
    while i < n
        invariant
            0 <= i <= n,
            n == other@.len(),
            s@ == old(s)@ + other@.take(i as int),
        decreases n - i,
    {
        let ch = other.as_str().get_char(i);
        s.push(ch);
        proof {
            assert(old(s)@ + other@.take(i as int + 1) =~= (old(s)@ + other@.take(i as int)).push(
                ch,
            ));
        }
        i = i + 1;
    }
    proof {
        assert(other@.take(n as int) =~= other@);
    }
}


// ---------------------------------------------------------------------------
// Substring search and equality
// ---------------------------------------------------------------------------

/// `needle` occurs contiguously in `hay`.
pub open spec fn contains_seq(hay: Seq<char>, needle: Seq<char>) -> bool {
    exists|i: int|
        0 <= i && i + needle.len() <= hay.len() && #[trigger] hay.subrange(i, i + needle.len())
            == needle
}

/// Substring search; `exact` on views.
pub fn str_contains(hay: &str, needle: &str) -> (r: bool)
    ensures
        r == contains_seq(hay@, needle@),
{
    let hn = hay.unicode_len();
    let nn = needle.unicode_len();
    if nn == 0 {
        proof {
            assert(hay@.subrange(0, 0 + needle@.len() as int) =~= needle@);
            assert(contains_seq(hay@, needle@));
        }
        return true;
    }
    if nn > hn {
        proof {
            if contains_seq(hay@, needle@) {
                let i = choose|i: int|
                    0 <= i && i + needle@.len() <= hay@.len() && #[trigger] hay@.subrange(
                        i,
                        i + needle@.len(),
                    ) == needle@;
            }
        }
        return false;
    }
    let mut i: usize = 0;
    while i <= hn - nn
        invariant
            1 <= nn <= hn,
            hn == hay@.len(),
            nn == needle@.len(),
            0 <= i <= hn - nn + 1,
            forall|k: int| 0 <= k < i ==> #[trigger] hay@.subrange(k, k + needle@.len()) != needle@,
        decreases hn + 1 - nn - i,
    {
        let mut j: usize = 0;
        let mut matched = true;
        while j < nn
            invariant
                1 <= nn <= hn,
                hn == hay@.len(),
                nn == needle@.len(),
                0 <= i <= hn - nn,
                0 <= j <= nn,
                matched ==> forall|t: int| 0 <= t < j ==> hay@[i + t] == needle@[t],
                !matched ==> hay@.subrange(i as int, i + needle@.len()) != needle@,
            decreases nn - j,
        {
            let hc = hay.get_char(i + j);
            let nc = needle.get_char(j);
            if hc != nc {
                proof {
                    assert(hay@.subrange(i as int, i + needle@.len())[j as int] == hay@[i + j]);
                }
                matched = false;
                j = nn;
            } else {
                j = j + 1;
            }
        }
        if matched {
            proof {
                assert(hay@.subrange(i as int, i + needle@.len()) =~= needle@);
            }
            return true;
        }
        i = i + 1;
    }
    proof {
        if contains_seq(hay@, needle@) {
            let k = choose|k: int|
                0 <= k && k + needle@.len() <= hay@.len() && #[trigger] hay@.subrange(k, k + needle@.len())
                    == needle@;
        }
    }
    false
}

/// String equality on views.
pub fn str_eq(a: &str, b: &str) -> (r: bool)
    ensures
        r == (a@ == b@),
{
    let an = a.unicode_len();
    let bn = b.unicode_len();
    if an != bn {
        return false;
    }
    let mut i: usize = 0;
    while i < an
        invariant
            an == a@.len(),
            an == b@.len(),
            0 <= i <= an,
            forall|k: int| 0 <= k < i ==> a@[k] == b@[k],
        decreases an - i,
    {
        if a.get_char(i) != b.get_char(i) {
            return false;
        }
        i = i + 1;
    }
    proof {
        assert(a@ =~= b@);
    }
    true
}

} // verus!
