//! Character-level helpers: building strings, decimal digits, whitespace.
use vstd::prelude::*;

verus! {

/// Appends one character to a `String`.
///
/// Trusted: calls `String::push`, which std documents as appending the
/// character to the end of the string; the contract states exactly that.
#[verifier::external_body]
pub(crate) fn push_char(s: &mut String, c: char)
    ensures
        final(s)@ == old(s)@.push(c),
{
    s.push(c);
}

/// Builds a `String` holding exactly the given characters.
pub fn string_from_chars(cs: &Vec<char>) -> (s: String)
    ensures
        s@ == cs@,
{
    let mut s = String::new();
    let mut i: usize = 0;
    while i < cs.len()
        invariant
            i <= cs.len(),
            s@ == cs@.subrange(0, i as int),
        decreases cs.len() - i,
    {
        push_char(&mut s, cs[i]);
        i += 1;
        assert(s@ =~= cs@.subrange(0, i as int));
    }
    assert(cs@.subrange(0, cs.len() as int) =~= cs@);
    s
}

/// The characters of a string slice, in order.
pub fn chars_of(s: &str) -> (v: Vec<char>)
    ensures
        v@ == s@,
{
    broadcast use vstd::string::group_string_axioms;
    let mut v: Vec<char> = Vec::new();
    for c in it: s.chars()
        invariant
            v@ == it.seq().take(it.index() as int),
    {
        v.push(c);
        assert(v@ =~= it.seq().take(it.index() as int + 1));
    }
    v
}


/// Appends every character of `cs` to `s`.
pub fn push_chars(s: &mut String, cs: &Vec<char>)
    ensures
        final(s)@ == old(s)@ + cs@,
{
    let mut i: usize = 0;
    while i < cs.len()
        invariant
            i <= cs.len(),
            s@ == old(s)@ + cs@.subrange(0, i as int),
        decreases cs.len() - i,
    {
        push_char(s, cs[i]);
        i += 1;
        assert(s@ =~= old(s)@ + cs@.subrange(0, i as int));
    }
    assert(cs@.subrange(0, cs.len() as int) =~= cs@);
}

/// Appends every character of `t` to `s`.
pub fn push_str(s: &mut String, t: &str)
    ensures
        final(s)@ == old(s)@ + t@,
{
    let cs = chars_of(t);
    push_chars(s, &cs);
}

/// Whitespace as `char::is_whitespace` defines it: the characters with the
/// Unicode `White_Space` property.
pub open spec fn is_ws(c: char) -> bool {
    let u = c as u32;
    ||| 9 <= u <= 13
    ||| u == 32
    ||| u == 0x85
    ||| u == 0xa0
    ||| u == 0x1680
    ||| 0x2000 <= u <= 0x200a
    ||| u == 0x2028
    ||| u == 0x2029
    ||| u == 0x202f
    ||| u == 0x205f
    ||| u == 0x3000
}

pub fn is_ws_char(c: char) -> (r: bool)
    ensures
        r == is_ws(c),
{
    let u = c as u32;
    (9 <= u && u <= 13) || u == 32 || u == 0x85 || u == 0xa0 || u == 0x1680 || (0x2000 <= u && u
        <= 0x200a) || u == 0x2028 || u == 0x2029 || u == 0x202f || u == 0x205f || u == 0x3000
}

/// Splitting after one more character: the tokens closed so far and the token being read.
pub open spec fn tok_step(st: (Seq<Seq<char>>, Seq<char>), c: char) -> (Seq<Seq<char>>, Seq<char>) {
    if is_ws(c) {
        if st.1.len() > 0 {
            (st.0.push(st.1), Seq::empty())
        } else {
            st
        }
    } else {
        (st.0, st.1.push(c))
    }
}

/// The state of splitting the first `n` characters of `s` at whitespace.
pub open spec fn tok_scan(s: Seq<char>, n: nat) -> (Seq<Seq<char>>, Seq<char>)
    decreases n,
{
    if n == 0 || n > s.len() {
        (Seq::empty(), Seq::empty())
    } else {
        tok_step(tok_scan(s, (n - 1) as nat), s[n - 1])
    }
}

/// The maximal runs of non-whitespace characters of `s`, in order
/// (what `str::split_whitespace` yields).
pub open spec fn ws_tokens(s: Seq<char>) -> Seq<Seq<char>> {
    let st = tok_scan(s, s.len());
    if st.1.len() > 0 {
        st.0.push(st.1)
    } else {
        st.0
    }
}

/// The character sequences of a sequence of character vectors.
pub open spec fn char_views(v: Seq<Vec<char>>) -> Seq<Seq<char>> {
    v.map_values(|t: Vec<char>| t@)
}

/// Splits `cs` at whitespace, dropping empty pieces.
pub fn split_ws(cs: &Vec<char>) -> (toks: Vec<Vec<char>>)
    ensures
        char_views(toks@) == ws_tokens(cs@),
{
    let mut toks: Vec<Vec<char>> = Vec::new();
    let mut cur: Vec<char> = Vec::new();
    let mut i: usize = 0;
    while i < cs.len()
        invariant
            i <= cs.len(),
            char_views(toks@) == tok_scan(cs@, i as nat).0,
            cur@ == tok_scan(cs@, i as nat).1,
        decreases cs.len() - i,
    {
        let c = cs[i];
        if is_ws_char(c) {
            if cur.len() > 0 {
                let ghost old_toks = toks@;
                toks.push(cur);
                cur = Vec::new();
                assert(char_views(toks@) =~= char_views(old_toks).push(toks@[toks@.len() - 1]@));
            }
        } else {
            cur.push(c);
        }
        i += 1;
    }
    if cur.len() > 0 {
        let ghost old_toks = toks@;
        toks.push(cur);
        assert(char_views(toks@) =~= char_views(old_toks).push(toks@[toks@.len() - 1]@));
    }
    toks
}

pub open spec fn is_digit(c: char) -> bool {
    48 <= (c as u32) <= 57
}

pub open spec fn digit_val(c: char) -> nat {
    ((c as u32) - 48) as nat
}

/// The decimal value of the first `n` characters of `t`, read as digits.
pub open spec fn dec_value(t: Seq<char>, n: nat) -> nat
    decreases n,
{
    if n == 0 || n > t.len() {
        0
    } else {
        dec_value(t, (n - 1) as nat) * 10 + digit_val(t[n - 1])
    }
}

/// The digits part of an unsigned number: `t` without a leading `+`.
pub open spec fn unsigned_digits(t: Seq<char>) -> Seq<char> {
    if t.len() > 0 && t[0] == '+' {
        t.drop_first()
    } else {
        t
    }
}

pub open spec fn all_digits(d: Seq<char>) -> bool {
    forall|i: int| 0 <= i < d.len() ==> is_digit(#[trigger] d[i])
}

/// What `str::parse` gives for an unsigned integer type whose largest value is
/// `max`: an optional `+`, then one or more decimal digits whose value is at most `max`.
pub open spec fn spec_parse_uint(t: Seq<char>, max: nat) -> Option<nat> {
    let d = unsigned_digits(t);
    if d.len() == 0 || !all_digits(d) {
        None
    } else if dec_value(d, d.len()) > max {
        None
    } else {
        Some(dec_value(d, d.len()))
    }
}

proof fn lemma_dec_value_grows(t: Seq<char>, n: nat)
    requires
        0 < n <= t.len(),
    ensures
        dec_value(t, n) >= dec_value(t, (n - 1) as nat),
{
}

proof fn lemma_dec_value_mono(t: Seq<char>, a: nat, b: nat)
    requires
        a <= b <= t.len(),
    ensures
        dec_value(t, a) <= dec_value(t, b),
    decreases b,
{
    if a < b {
        lemma_dec_value_mono(t, a, (b - 1) as nat);
        lemma_dec_value_grows(t, b);
    }
}

/// Parses an unsigned decimal number of at most `max`, as `str::parse` does.
pub fn parse_uint(t: &Vec<char>, max: u64) -> (r: Option<u64>)
    ensures
        match spec_parse_uint(t@, max as nat) {
            Some(v) => r == Some(v as u64),
            None => r is None,
        },
{
    let start: usize = if t.len() > 0 && t[0] == '+' {
        1
    } else {
        0
    };
    let ghost d = unsigned_digits(t@);
    assert(d =~= t@.subrange(start as int, t@.len() as int));
    if start >= t.len() {
        return None;
    }
    let mut acc: u64 = 0;
    let mut big = false;
    let mut i: usize = start;
    while i < t.len()
        invariant
            start <= i <= t.len(),
            d == t@.subrange(start as int, t@.len() as int),
            d == unsigned_digits(t@),
            d.len() > 0,
            forall|j: int| 0 <= j < i - start ==> is_digit(#[trigger] d[j]),
            !big ==> acc == dec_value(d, (i - start) as nat) && acc <= max,
            big ==> dec_value(d, (i - start) as nat) > max,
        decreases t.len() - i,
    {
        let c = t[i];
        let u = c as u32;
        let ghost j: int = i - start;
        assert(d[j] == c);
        if u < 48 || u > 57 {
            assert(!is_digit(d[j]));
            return None;
        }
        let dv = (u - 48) as u64;
        let ghost k: nat = (i - start + 1) as nat;
        assert(d[k - 1] == c);
        if !big {
            if dv > max || acc > (max - dv) / 10 {
                big = true;
                assert(dec_value(d, k) == acc * 10 + dv);
                assert(acc * 10 + dv > max) by (nonlinear_arith)
                    requires
                        dv > max || acc > (max - dv) / 10,
                {
                }
            } else {
                assert(acc * 10 + dv <= max) by (nonlinear_arith)
                    requires
                        acc <= (max - dv) / 10,
                        dv <= 9,
                {
                }
                acc = acc * 10 + dv;
            }
        } else {
            proof {
                lemma_dec_value_grows(d, k);
            }
        }
        i += 1;
    }
    if big {
        None
    } else {
        Some(acc)
    }
}

/// The decimal digits of `n`, without leading zeros (`to_string` of an unsigned integer).
pub open spec fn dec_string(n: nat) -> Seq<char>
    decreases n,
{
    if n < 10 {
        seq![(48 + n) as char]
    } else {
        dec_string(n / 10).push((48 + n % 10) as char)
    }
}

/// Appends the decimal digits of `n`.
pub fn push_decimal(s: &mut String, n: u32)
    ensures
        final(s)@ == old(s)@ + dec_string(n as nat),
    decreases n,
{
    if n >= 10 {
        push_decimal(s, n / 10);
    }
    let d = (48 + n % 10) as u8;
    push_char(s, d as char);
    assert(s@ =~= old(s)@ + dec_string(n as nat));
}

/// `parts` joined with single spaces.
pub open spec fn join_spaces(parts: Seq<Seq<char>>) -> Seq<char>
    decreases parts.len(),
{
    if parts.len() == 0 {
        Seq::empty()
    } else if parts.len() == 1 {
        parts[0]
    } else {
        join_spaces(parts.drop_last()) + seq![' '] + parts.last()
    }
}

/// No character of `t` is whitespace, and `t` is not empty.
pub open spec fn is_word(t: Seq<char>) -> bool {
    &&& t.len() > 0
    &&& forall|i: int| 0 <= i < t.len() ==> !is_ws(#[trigger] t[i])
}

/// Splitting the characters of `a + b` goes through `a`, then `b`.
proof fn lemma_tok_scan_split(a: Seq<char>, b: Seq<char>, k: nat)
    requires
        k <= b.len(),
    ensures
        tok_scan(a + b, a.len() + k) == tok_from(tok_scan(a, a.len()), b, k),
    decreases k,
{
    if k == 0 {
        lemma_tok_scan_prefix(a, b, a.len());
    } else {
        lemma_tok_scan_split(a, b, (k - 1) as nat);
        assert((a + b)[a.len() + k - 1] == b[k - 1]);
    }
}

/// The splitting state after the first `k` characters of `b`, from `st`.
pub open spec fn tok_from(st: (Seq<Seq<char>>, Seq<char>), b: Seq<char>, k: nat) -> (Seq<Seq<char>>, Seq<char>)
    decreases k,
{
    if k == 0 || k > b.len() {
        st
    } else {
        tok_step(tok_from(st, b, (k - 1) as nat), b[k - 1])
    }
}

proof fn lemma_tok_scan_prefix(a: Seq<char>, b: Seq<char>, n: nat)
    requires
        n <= a.len(),
    ensures
        tok_scan(a + b, n) == tok_scan(a, n),
    decreases n,
{
    if n > 0 {
        lemma_tok_scan_prefix(a, b, (n - 1) as nat);
        assert((a + b)[n - 1] == a[n - 1]);
    }
}

/// Reading a word extends the token being read by it.
proof fn lemma_tok_from_word(st: (Seq<Seq<char>>, Seq<char>), w: Seq<char>, k: nat)
    requires
        k <= w.len(),
        forall|i: int| 0 <= i < w.len() ==> !is_ws(#[trigger] w[i]),
    ensures
        tok_from(st, w, k) == (st.0, st.1 + w.take(k as int)),
    decreases k,
{
    if k == 0 {
        assert(st.1 + w.take(0) =~= st.1);
    } else {
        lemma_tok_from_word(st, w, (k - 1) as nat);
        assert(!is_ws(w[k - 1]));
        assert(st.1 + w.take(k as int) =~= (st.1 + w.take(k - 1)).push(w[k - 1]));
    }
}

/// Words joined with single spaces split back into the words.
pub proof fn lemma_split_joined_words(parts: Seq<Seq<char>>)
    requires
        parts.len() > 0,
        forall|i: int| 0 <= i < parts.len() ==> is_word(#[trigger] parts[i]),
    ensures
        ws_tokens(join_spaces(parts)) == parts,
        tok_scan(join_spaces(parts), join_spaces(parts).len()) == (parts.drop_last(), parts.last()),
    decreases parts.len(),
{
    let s = join_spaces(parts);
    if parts.len() == 1 {
        let w = parts[0];
        assert(is_word(w));
        assert(s == w);
        lemma_tok_from_word((Seq::<Seq<char>>::empty(), Seq::<char>::empty()), w, w.len());
        lemma_tok_scan_split(Seq::<char>::empty(), w, w.len());
        assert(Seq::<char>::empty() + w =~= w);
        assert(Seq::<char>::empty() + w.take(w.len() as int) =~= w);
        assert(parts.drop_last() =~= Seq::<Seq<char>>::empty());
    } else {
        let init = parts.drop_last();
        let w = parts.last();
        assert(forall|i: int| 0 <= i < init.len() ==> #[trigger] init[i] == parts[i]);
        lemma_split_joined_words(init);
        let a = join_spaces(init);
        let a2 = a + seq![' '];
        assert(s == a2 + w);
        assert(is_word(w)) by {
            assert(w == parts[parts.len() - 1]);
        }
        lemma_tok_scan_split(a, seq![' '], 1);
        assert(a + seq![' '] == a2);
        assert(is_ws(' '));
        let st1 = tok_scan(a2, a2.len());
        assert(is_word(init[init.len() - 1]));
        assert(init.last().len() > 0);
        assert(seq![' '][0] == ' ');
        assert(seq![' '].len() == 1);
        assert(tok_from(tok_scan(a, a.len()), seq![' '], 0) == tok_scan(a, a.len()));
        assert(tok_from(tok_scan(a, a.len()), seq![' '], 1) == tok_step(tok_scan(a, a.len()), ' '));
        assert(st1 == (init.drop_last().push(init.last()), Seq::<char>::empty()));
        assert(init.drop_last().push(init.last()) =~= init);
        lemma_tok_scan_split(a2, w, w.len());
        lemma_tok_from_word(st1, w, w.len());
        assert(Seq::<char>::empty() + w.take(w.len() as int) =~= w);
        assert(init.push(w) =~= parts);
    }
}

/// The digits of `n` read back as `n`.
pub proof fn lemma_dec_string_value(n: nat)
    ensures
        all_digits(dec_string(n)),
        dec_string(n).len() > 0,
        dec_value(dec_string(n), dec_string(n).len()) == n,
        dec_string(n)[0] != '+',
    decreases n,
{
    if n >= 10 {
        lemma_dec_string_value(n / 10);
        let t = dec_string(n / 10);
        let d = (48 + n % 10) as char;
        assert(d as u32 == 48 + n % 10);
        lemma_dec_value_push(t, d, t.len());
        assert(dec_string(n) == t.push(d));
        assert(t.push(d)[0] == t[0]);
        assert(t.push(d)[t.len() as int] == d);
        assert(n == (n / 10) * 10 + n % 10) by (nonlinear_arith);
        assert(dec_value(t.push(d), t.len() + 1) == dec_value(t, t.len()) * 10 + (n % 10));
        assert forall|i: int| 0 <= i < t.push(d).len() implies is_digit(#[trigger] t.push(d)[i]) by {
            if i < t.len() {
                assert(t.push(d)[i] == t[i]);
            }
        }
    } else {
        let d = (48 + n) as char;
        assert(d as u32 == 48 + n);
        assert(dec_string(n) == seq![d]);
        assert(dec_value(seq![d], 1) == dec_value(seq![d], 0) * 10 + digit_val(d));
    }
}

proof fn lemma_dec_value_push(t: Seq<char>, c: char, k: nat)
    requires
        k <= t.len(),
    ensures
        dec_value(t.push(c), k) == dec_value(t, k),
    decreases k,
{
    if k > 0 {
        lemma_dec_value_push(t, c, (k - 1) as nat);
        assert(t.push(c)[k - 1] == t[k - 1]);
    }
}

/// Reading the digits of `n` as a number of at most `max` gives `n`.
pub proof fn lemma_parse_dec_string(n: nat, max: nat)
    requires
        n <= max,
    ensures
        spec_parse_uint(dec_string(n), max) == Some(n),
{
    lemma_dec_string_value(n);
    assert(unsigned_digits(dec_string(n)) == dec_string(n));
}

/// Decimal digits are not whitespace.
pub proof fn lemma_dec_string_word(n: nat)
    ensures
        is_word(dec_string(n)),
{
    lemma_dec_string_value(n);
    assert forall|i: int| 0 <= i < dec_string(n).len() implies !is_ws(#[trigger] dec_string(n)[i]) by {
        assert(is_digit(dec_string(n)[i]));
    }
}

} // verus!
