use vstd::prelude::*;

verus! {

/// Parameters of the `deposit` subcommand.
pub struct Deposit {
    pub asset: String,
}

impl Deposit {
    /// A deposit of no named asset yet.
    pub fn new() -> (res: Self)
        ensures
            res.asset@ == Seq::<char>::empty(),
    {
        Self { asset: String::new() }
    }
}

// ---------------------------------------------------------------------------
// The grammar of decimal floating-point literals, as std documents it for
// `f64::from_str` (all letters compared ignoring ASCII case):
//
//   Float    ::= Sign? ( 'inf' | 'infinity' | 'nan' | Number )
//   Number   ::= ( Digit+ | Digit+ '.' Digit* | Digit* '.' Digit+ ) Exp?
//   Exp      ::= 'e' Sign? Digit+
//   Sign     ::= [+-]
//   Digit    ::= [0-9]
// ---------------------------------------------------------------------------

pub open spec fn is_digit(c: char) -> bool {
    '0' <= c && c <= '9'
}

pub open spec fn is_sign(c: char) -> bool {
    c == '+' || c == '-'
}

pub open spec fn is_exp_marker(c: char) -> bool {
    c == 'e' || c == 'E'
}

pub open spec fn all_digits(s: Seq<char>) -> bool {
    forall|i: int| 0 <= i < s.len() ==> #[trigger] is_digit(s[i])
}

/// `Digit+ | Digit+ '.' Digit* | Digit* '.' Digit+`
pub open spec fn is_mantissa(s: Seq<char>) -> bool {
    ||| s.len() > 0 && all_digits(s)
    ||| exists|p: int|
        0 <= p < s.len() && #[trigger] s[p] == '.' && s.len() > 1 && all_digits(s.take(p))
            && all_digits(s.skip(p + 1))
}

/// `Sign? Digit+`, the part of an exponent after its marker.
pub open spec fn is_exponent_digits(s: Seq<char>) -> bool {
    ||| s.len() > 0 && all_digits(s)
    ||| s.len() > 1 && is_sign(s[0]) && all_digits(s.drop_first())
}

/// `Number`: a mantissa with an optional exponent.
pub open spec fn is_number(s: Seq<char>) -> bool {
    ||| is_mantissa(s)
    ||| exists|e: int|
        0 <= e < s.len() && #[trigger] is_exp_marker(s[e]) && is_mantissa(s.take(e))
            && is_exponent_digits(s.skip(e + 1))
}

/// `c` is `lower` or its upper-case ASCII form.
pub open spec fn same_letter_ignoring_case(c: char, lower: char) -> bool {
    c == lower || ('A' <= c && c <= 'Z' && c as u32 + 32 == lower as u32)
}

/// `s` spells the lower-case ASCII word `word`, letters compared ignoring case.
pub open spec fn spells_word(s: Seq<char>, word: Seq<char>) -> bool {
    s.len() == word.len() && forall|i: int|
        0 <= i < s.len() ==> #[trigger] same_letter_ignoring_case(s[i], word[i])
}

pub open spec fn is_special_value(s: Seq<char>) -> bool {
    ||| spells_word(s, seq!['i', 'n', 'f'])
    ||| spells_word(s, seq!['i', 'n', 'f', 'i', 'n', 'i', 't', 'y'])
    ||| spells_word(s, seq!['n', 'a', 'n'])
}

/// The text after an optional leading sign.
pub open spec fn unsigned_part(s: Seq<char>) -> Seq<char> {
    if s.len() > 0 && is_sign(s[0]) {
        s.drop_first()
    } else {
        s
    }
}

/// `Float`: the texts that parse as a floating-point number.
pub open spec fn is_float_literal(s: Seq<char>) -> bool {
    is_special_value(unsigned_part(s)) || is_number(unsigned_part(s))
}

pub open spec fn is_mantissa_char(c: char) -> bool {
    is_digit(c) || c == '.'
}

// ----------------------------- lemmas --------------------------------------

proof fn lemma_mantissa_chars(s: Seq<char>)
    requires
        is_mantissa(s),
    ensures
        forall|i: int| 0 <= i < s.len() ==> #[trigger] is_mantissa_char(s[i]),
{
    if s.len() > 0 && all_digits(s) {
        assert forall|i: int| 0 <= i < s.len() implies #[trigger] is_mantissa_char(s[i]) by {
            assert(is_digit(s[i]));
        }
    } else {
        let p = choose|p: int|
            0 <= p < s.len() && #[trigger] s[p] == '.' && s.len() > 1 && all_digits(s.take(p))
                && all_digits(s.skip(p + 1));
        assert forall|i: int| 0 <= i < s.len() implies #[trigger] is_mantissa_char(s[i]) by {
            if i < p {
                assert(s.take(p)[i] == s[i]);
                assert(is_digit(s.take(p)[i]));
            } else if i > p {
                assert(s.skip(p + 1)[i - p - 1] == s[i]);
                assert(is_digit(s.skip(p + 1)[i - p - 1]));
            }
        }
    }
}

/// A text holding a character that no mantissa holds is no mantissa.
proof fn lemma_not_mantissa(s: Seq<char>, k: int)
    requires
        0 <= k < s.len(),
        !is_mantissa_char(s[k]),
    ensures
        !is_mantissa(s),
{
    if is_mantissa(s) {
        lemma_mantissa_chars(s);
        assert(is_mantissa_char(s[k]));
    }
}

/// The mantissa test in terms of the leading run of digits `a`.
proof fn lemma_mantissa_by_run(s: Seq<char>, a: int)
    requires
        0 <= a <= s.len(),
        all_digits(s.take(a)),
        a < s.len() ==> !is_digit(s[a]),
    ensures
        is_mantissa(s) <==> ((a == s.len() && a > 0) || (a < s.len() && s[a] == '.' && s.len()
            > 1 && all_digits(s.skip(a + 1)))),
{
    if a == s.len() {
        assert(s.take(a) =~= s);
        if a > 0 {
            assert(is_mantissa(s));
        } else {
            assert(!is_mantissa(s));
        }
    } else {
        if s[a] == '.' && s.len() > 1 && all_digits(s.skip(a + 1)) {
            assert(is_mantissa(s));
        }
        if is_mantissa(s) {
            assert(!all_digits(s)) by {
                assert(!is_digit(s[a]));
            }
            let p = choose|p: int|
                0 <= p < s.len() && #[trigger] s[p] == '.' && s.len() > 1 && all_digits(s.take(p))
                    && all_digits(s.skip(p + 1));
            if p < a {
                assert(s.take(a)[p] == s[p]);
                assert(is_digit(s.take(a)[p]));
            } else if p > a {
                assert(s.take(p)[a] == s[a]);
                assert(is_digit(s.take(p)[a]));
            }
            assert(p == a);
        }
    }
}

/// The exponent text may only end at the first character that no mantissa holds.
proof fn lemma_number_split(s: Seq<char>, q: int)
    requires
        0 <= q <= s.len(),
        forall|i: int| 0 <= i < q ==> #[trigger] is_mantissa_char(s[i]),
        q < s.len() ==> !is_mantissa_char(s[q]),
    ensures
        q == s.len() ==> (is_number(s) <==> is_mantissa(s)),
        q < s.len() && is_exp_marker(s[q]) ==> (is_number(s) <==> (is_mantissa(s.take(q))
            && is_exponent_digits(s.skip(q + 1)))),
        q < s.len() && !is_exp_marker(s[q]) ==> !is_number(s),
{
    if q < s.len() {
        lemma_not_mantissa(s, q);
    }
    if exists|e: int|
        0 <= e < s.len() && #[trigger] is_exp_marker(s[e]) && is_mantissa(s.take(e))
            && is_exponent_digits(s.skip(e + 1)) {
        let e = choose|e: int|
            0 <= e < s.len() && #[trigger] is_exp_marker(s[e]) && is_mantissa(s.take(e))
                && is_exponent_digits(s.skip(e + 1));
        if e < q {
            assert(is_mantissa_char(s[e]));
        } else if e > q {
            assert(s.take(e)[q] == s[q]);
            lemma_not_mantissa(s.take(e), q);
        }
        assert(e == q);
    }
    if q < s.len() && is_exp_marker(s[q]) && is_mantissa(s.take(q)) && is_exponent_digits(
        s.skip(q + 1),
    ) {
        assert(is_number(s));
    }
}

// ------------------------------- laws ---------------------------------------

pub open spec fn digit_text(s: Seq<char>) -> bool {
    s.len() > 0 && forall|i: int| 0 <= i < s.len() ==> '0' <= #[trigger] s[i] && s[i] <= '9'
}

/// Every non-empty run of decimal digits, with or without a leading sign,
/// reads as a number.
pub proof fn law_integers_are_floats(d: Seq<char>, sign: char)
    requires
        digit_text(d),
        sign == '+' || sign == '-',
    ensures
        is_float_literal(d),
        is_float_literal(seq![sign] + d),
{
    assert(is_mantissa(d));
    assert((seq![sign] + d).drop_first() =~= d);
}

/// Digits, a point and digits read as a number when at least one side has a
/// digit; so do `1.`, `.5` and `1.5`.
pub proof fn law_decimals_are_floats(a: Seq<char>, b: Seq<char>)
    requires
        a.len() == 0 || digit_text(a),
        b.len() == 0 || digit_text(b),
        a.len() + b.len() > 0,
    ensures
        is_float_literal(a + seq!['.'] + b),
{
    let t = a + seq!['.'] + b;
    assert(t.take(a.len() as int) =~= a);
    assert(t.skip(a.len() as int + 1) =~= b);
    assert(t[a.len() as int] == '.');
    assert(is_mantissa(t));
    if t.len() > 0 && is_sign(t[0]) {
        if a.len() > 0 {
            assert(t[0] == a[0]);
        }
    }
    assert(unsigned_part(t) == t);
}

/// A run of digits followed by an exponent marker, an optional sign and a
/// run of digits reads as a number.
pub proof fn law_exponents_are_floats(m: Seq<char>, marker: char, e: Seq<char>)
    requires
        digit_text(m),
        marker == 'e' || marker == 'E',
        digit_text(e),
    ensures
        is_float_literal(m + seq![marker] + e),
{
    let t = m + seq![marker] + e;
    assert(t.take(m.len() as int) =~= m);
    assert(t.skip(m.len() as int + 1) =~= e);
    assert(is_exp_marker(t[m.len() as int]));
    assert(t[0] == m[0]);
    assert(unsigned_part(t) == t);
    assert(is_number(t));
}

/// A text holding a space, or any character that no floating-point text
/// holds, is rejected.
pub proof fn law_foreign_characters_rejected(s: Seq<char>, k: int)
    requires
        0 <= k < s.len(),
        !is_digit(s[k]) && !is_sign(s[k]) && s[k] != '.' && !is_exp_marker(s[k]),
        !same_letter_ignoring_case(s[k], 'i') && !same_letter_ignoring_case(s[k], 'n')
            && !same_letter_ignoring_case(s[k], 'f') && !same_letter_ignoring_case(s[k], 't')
            && !same_letter_ignoring_case(s[k], 'y') && !same_letter_ignoring_case(s[k], 'a'),
    ensures
        !is_float_literal(s),
{
    let body = unsigned_part(s);
    let off: int = if s.len() > 0 && is_sign(s[0]) { 1 } else { 0 };
    assert(k >= off);
    assert(body[k - off] == s[k]);
    let j = k - off;
    if is_number(body) {
        if is_mantissa(body) {
            lemma_not_mantissa(body, j);
        } else {
            let e = choose|e: int|
                0 <= e < body.len() && #[trigger] is_exp_marker(body[e]) && is_mantissa(body.take(e))
                    && is_exponent_digits(body.skip(e + 1));
            if j < e {
                assert(body.take(e)[j] == body[j]);
                lemma_not_mantissa(body.take(e), j);
            } else if j > e {
                let t = body.skip(e + 1);
                assert(t[j - e - 1] == body[j]);
                if t.len() > 0 && all_digits(t) {
                    assert(is_digit(t[j - e - 1]));
                } else {
                    if j - e - 1 == 0 {
                        assert(is_sign(t[0]));
                    } else {
                        assert(t.drop_first()[j - e - 2] == t[j - e - 1]);
                        assert(is_digit(t.drop_first()[j - e - 2]));
                    }
                }
            }
        }
    }
    if is_special_value(body) {
        assert(same_letter_ignoring_case(body[j], seq!['i', 'n', 'f'][j]) || same_letter_ignoring_case(
            body[j],
            seq!['i', 'n', 'f', 'i', 'n', 'i', 't', 'y'][j],
        ) || same_letter_ignoring_case(body[j], seq!['n', 'a', 'n'][j]));
    }
}

/// A sign in front of an unsigned text does not change whether it reads as a
/// number; two signs never do.
pub proof fn law_sign_prefix(s: Seq<char>, sign: char)
    requires
        sign == '+' || sign == '-',
    ensures
        (s.len() == 0 || !is_sign(s[0])) ==> (is_float_literal(seq![sign] + s) == is_float_literal(s)),
        s.len() > 0 && is_sign(s[0]) ==> !is_float_literal(seq![sign] + s),
{
    let t = seq![sign] + s;
    assert(t.drop_first() =~= s);
    if s.len() == 0 || !is_sign(s[0]) {
        assert(unsigned_part(s) == s);
    }
    if s.len() > 0 && is_sign(s[0]) {
        assert(s[0] == t.drop_first()[0]);
        law_foreign_sign(s);
    }
}

/// A text starting with a sign is not a number without its sign.
proof fn law_foreign_sign(s: Seq<char>)
    requires
        s.len() > 0,
        is_sign(s[0]),
    ensures
        !is_special_value(s),
        !is_number(s),
{
    if is_number(s) {
        if is_mantissa(s) {
            lemma_not_mantissa(s, 0);
        } else {
            let e = choose|e: int|
                0 <= e < s.len() && #[trigger] is_exp_marker(s[e]) && is_mantissa(s.take(e))
                    && is_exponent_digits(s.skip(e + 1));
            if e > 0 {
                assert(s.take(e)[0] == s[0]);
                lemma_not_mantissa(s.take(e), 0);
            }
        }
    }
    if is_special_value(s) {
        assert(same_letter_ignoring_case(s[0], 'i') || same_letter_ignoring_case(s[0], 'n'));
    }
}

// ------------------------------ scanning -----------------------------------

fn char_is_digit(c: char) -> (r: bool)
    ensures
        r == is_digit(c),
{
    '0' <= c && c <= '9'
}

/// Index of the first non-digit at or after `lo` (or `hi`).
fn digit_run(cs: &Vec<char>, lo: usize, hi: usize) -> (a: usize)
    requires
        lo <= hi <= cs.len(),
    ensures
        lo <= a <= hi,
        all_digits(cs@.subrange(lo as int, a as int)),
        a < hi ==> !is_digit(cs@[a as int]),
{
    let mut a = lo;
    while a < hi && char_is_digit(cs[a])
        invariant
            lo <= a <= hi <= cs.len(),
            all_digits(cs@.subrange(lo as int, a as int)),
        decreases hi - a,
    {
        proof {
            assert forall|i: int| 0 <= i < a + 1 - lo implies #[trigger] is_digit(
                cs@.subrange(lo as int, a + 1)[i],
            ) by {
                if i < a - lo {
                    assert(cs@.subrange(lo as int, a + 1)[i] == cs@.subrange(lo as int, a as int)[i]);
                }
            }
        }
        a = a + 1;
    }
    a
}

/// Index of the first character at or after `lo` that no mantissa holds.
fn mantissa_run(cs: &Vec<char>, lo: usize) -> (q: usize)
    requires
        lo <= cs.len(),
    ensures
        lo <= q <= cs.len(),
        forall|i: int| lo <= i < q ==> #[trigger] is_mantissa_char(cs@[i]),
        q < cs.len() ==> !is_mantissa_char(cs@[q as int]),
{
    let mut q = lo;
    while q < cs.len() && (char_is_digit(cs[q]) || cs[q] == '.')
        invariant
            lo <= q <= cs.len(),
            forall|i: int| lo <= i < q ==> #[trigger] is_mantissa_char(cs@[i]),
        decreases cs.len() - q,
    {
        q = q + 1;
    }
    q
}

/// Whether `cs[lo..hi]` is a mantissa, given that it holds only digits and dots.
fn mantissa_ok(cs: &Vec<char>, lo: usize, hi: usize) -> (r: bool)
    requires
        lo <= hi <= cs.len(),
    ensures
        r == is_mantissa(cs@.subrange(lo as int, hi as int)),
{
    let ghost s = cs@.subrange(lo as int, hi as int);
    let a = digit_run(cs, lo, hi);
    proof {
        assert(s.take(a - lo) =~= cs@.subrange(lo as int, a as int));
        lemma_mantissa_by_run(s, a - lo);
    }
    if a == hi {
        a > lo
    } else if cs[a] == '.' && hi - lo > 1 {
        let b = digit_run(cs, a + 1, hi);
        proof {
            assert(s.skip(a - lo + 1) =~= cs@.subrange(a + 1, hi as int));
            if b < hi {
                assert(s.skip(a - lo + 1)[b - a - 1] == cs@[b as int]);
            }
        }
        b == hi
    } else {
        false
    }
}

/// Whether `cs[lo..hi]` is `Sign? Digit+`.
fn exponent_ok(cs: &Vec<char>, lo: usize, hi: usize) -> (r: bool)
    requires
        lo <= hi <= cs.len(),
    ensures
        r == is_exponent_digits(cs@.subrange(lo as int, hi as int)),
{
    let ghost s = cs@.subrange(lo as int, hi as int);
    if lo == hi {
        return false;
    }
    let start = if cs[lo] == '+' || cs[lo] == '-' {
        lo + 1
    } else {
        lo
    };
    let a = digit_run(cs, start, hi);
    proof {
        if start == lo {
            assert(s =~= cs@.subrange(start as int, hi as int));
        } else {
            assert(s.drop_first() =~= cs@.subrange(start as int, hi as int));
            assert(!is_digit(s[0]));
        }
        if a < hi {
            assert(cs@.subrange(start as int, hi as int)[a - start] == cs@[a as int]);
        } else {
            assert(cs@.subrange(start as int, a as int) =~= cs@.subrange(start as int, hi as int));
        }
    }
    a == hi && hi > start
}

/// Whether `cs[lo..]` spells the lower-case word `word`, ignoring ASCII case.
fn spells_word_at(cs: &Vec<char>, lo: usize, word: &[char]) -> (r: bool)
    requires
        lo <= cs.len(),
    ensures
        r == spells_word(cs@.subrange(lo as int, cs.len() as int), word@),
{
    let ghost s = cs@.subrange(lo as int, cs.len() as int);
    if cs.len() - lo != word.len() {
        return false;
    }
    let mut i: usize = 0;
    while i < word.len()
        invariant
            i <= word.len(),
            cs.len() - lo == word.len(),
            s == cs@.subrange(lo as int, cs.len() as int),
            forall|j: int| 0 <= j < i ==> #[trigger] same_letter_ignoring_case(s[j], word@[j]),
        decreases word.len() - i,
    {
        let c = cs[lo + i];
        let w = word[i];
        let same = c == w || ('A' <= c && c <= 'Z' && (c as u32) + 32 == (w as u32));
        assert(s[i as int] == c);
        assert(word@[i as int] == w);
        if !same {
            assert(!same_letter_ignoring_case(s[i as int], word@[i as int]));
            return false;
        }
        i = i + 1;
    }
    true
}

/// The characters of `s`, in order.
fn chars_of(s: &str) -> (r: Vec<char>)
    ensures
        r@ == s@,
{
    let n = s.unicode_len();
    let mut r: Vec<char> = Vec::new();
    let mut i: usize = 0;
    while i < n
        invariant
            i <= n,
            n == s@.len(),
            r@ == s@.take(i as int),
        decreases n - i,
    {
        let c = s.get_char(i);
        r.push(c);
        assert(s@.take(i + 1) =~= s@.take(i as int).push(c));
        i = i + 1;
    }
    assert(s@.take(n as int) =~= s@);
    r
}

/// Whether `s` reads as a floating-point number.
pub fn is_float_text(s: &str) -> (r: bool)
    ensures
        r == is_float_literal(s@),
{
    let cs = chars_of(s);
    let ghost t = cs@;
    let start: usize = if cs.len() > 0 && (cs[0] == '+' || cs[0] == '-') {
        1
    } else {
        0
    };
    let ghost body = unsigned_part(t);
    assert(body =~= t.subrange(start as int, t.len() as int));
    if spells_word_at(&cs, start, &['i', 'n', 'f']) || spells_word_at(
        &cs,
        start,
        &['i', 'n', 'f', 'i', 'n', 'i', 't', 'y'],
    ) || spells_word_at(&cs, start, &['n', 'a', 'n']) {
        return true;
    }
    let q = mantissa_run(&cs, start);
    proof {
        assert forall|i: int| 0 <= i < q - start implies #[trigger] is_mantissa_char(body[i]) by {
            assert(body[i] == t[start + i]);
        }
        if q < t.len() {
            assert(body[q - start] == t[q as int]);
        }
        lemma_number_split(body, q - start);
        assert(body.take(q - start) =~= t.subrange(start as int, q as int));
        if q < t.len() {
            assert(body.skip(q - start + 1) =~= t.subrange(q + 1, t.len() as int));
        }
    }
    if q == cs.len() {
        mantissa_ok(&cs, start, q)
    } else if cs[q] == 'e' || cs[q] == 'E' {
        mantissa_ok(&cs, start, q) && exponent_ok(&cs, q + 1, cs.len())
    } else {
        false
    }
}

/// Validator of the `AMOUNT` arguments: accepts exactly the texts that read
/// as a floating-point number.
pub fn amount_f64(v: String) -> (res: Result<(), String>)
    ensures
        res is Ok <==> is_float_literal(v@),
        res matches Err(msg) ==> msg@ == "The value is not an integer of type u64"@,
{
    if is_float_text(v.as_str()) {
        Ok(())
    } else {
        Err(String::from_str("The value is not an integer of type u64"))
    }
}

} // verus!
