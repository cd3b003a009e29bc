//! The light state carried by protocol notifications: a small JSON object
//! with a fixed schema, parsed by a verified recursive-descent parser, and
//! the actuator decision taken on each decoded state.

use crate::errors::DecodeError;
use vstd::prelude::*;

verus! {

/// One notification's payload: whether the light is on, how bright, its
/// color, and whether the server has removed (factory-reset) the device.
#[derive(Clone, Copy, PartialEq, Eq, Structural, Debug)]
pub struct LightState {
    pub is_on: bool,
    pub brightness: u8,
    pub color: i32,
    pub removed: bool,
}

/// JSON whitespace.
pub open spec fn is_ws(b: u8) -> bool {
    b == 32 || b == 9 || b == 10 || b == 13
}

/// `s` without its leading whitespace.
pub open spec fn skip_ws(s: Seq<u8>) -> Seq<u8>
    decreases s.len(),
{
    if s.len() > 0 && is_ws(s[0]) {
        skip_ws(s.drop_first())
    } else {
        s
    }
}

/// `s` begins with `p`.
pub open spec fn starts_with(s: Seq<u8>, p: Seq<u8>) -> bool {
    s.len() >= p.len() && s.take(p.len() as int) == p
}

/// The quoted key `"is_on"`.
pub open spec fn key_is_on() -> Seq<u8> {
    seq![34u8, 105u8, 115u8, 95u8, 111u8, 110u8, 34u8]
}

/// The quoted key `"brightness"`.
pub open spec fn key_brightness() -> Seq<u8> {
    seq![34u8, 98u8, 114u8, 105u8, 103u8, 104u8, 116u8, 110u8, 101u8, 115u8, 115u8, 34u8]
}

/// The quoted key `"color"`.
pub open spec fn key_color() -> Seq<u8> {
    seq![34u8, 99u8, 111u8, 108u8, 111u8, 114u8, 34u8]
}

/// The quoted key `"removed"`.
pub open spec fn key_removed() -> Seq<u8> {
    seq![34u8, 114u8, 101u8, 109u8, 111u8, 118u8, 101u8, 100u8, 34u8]
}

/// The literal `true`.
pub open spec fn lit_true() -> Seq<u8> {
    seq![116u8, 114u8, 117u8, 101u8]
}

/// The literal `false`.
pub open spec fn lit_false() -> Seq<u8> {
    seq![102u8, 97u8, 108u8, 115u8, 101u8]
}

/// Parses a boolean literal and returns it with the rest of the input.
pub open spec fn parse_bool(s: Seq<u8>) -> Option<(bool, Seq<u8>)> {
    if starts_with(s, lit_true()) {
        Some((true, s.skip(4)))
    } else if starts_with(s, lit_false()) {
        Some((false, s.skip(5)))
    } else {
        None
    }
}

/// An ASCII digit.
pub open spec fn is_digit(b: u8) -> bool {
    48 <= b <= 57
}

/// How many digits `s` begins with.
pub open spec fn count_digits(s: Seq<u8>) -> int
    decreases s.len(),
{
    if s.len() > 0 && is_digit(s[0]) {
        1 + count_digits(s.drop_first())
    } else {
        0
    }
}

/// The value of the first `n` digits of `s`, most significant first.
pub open spec fn digits_value(s: Seq<u8>, n: int) -> int
    decreases n,
{
    if n <= 0 {
        0
    } else {
        digits_value(s, n - 1) * 10 + (s[n - 1] - 48)
    }
}

/// Parses a JSON integer: an optional minus sign and digits, where a
/// leading zero stands alone (so `01` leaves `1` unconsumed and the caller
/// fails on it, as JSON demands).
pub open spec fn parse_int(s: Seq<u8>) -> Option<(int, Seq<u8>)> {
    let neg = s.len() > 0 && s[0] == 45;
    let t = if neg {
        s.drop_first()
    } else {
        s
    };
    if t.len() == 0 || !is_digit(t[0]) {
        None
    } else {
        let n = if t[0] == 48 {
            1
        } else {
            count_digits(t)
        };
        let v = digits_value(t, n);
        Some(
            (
                if neg {
                    -v
                } else {
                    v
                },
                t.skip(n),
            ),
        )
    }
}

/// Which fields a partially parsed object has filled in.
#[derive(Clone, Copy, Debug)]
pub struct LightFields {
    pub is_on: Option<bool>,
    pub brightness: Option<u8>,
    pub color: Option<i32>,
    pub removed: Option<bool>,
}

/// No field seen yet.
pub open spec fn fields_init() -> LightFields {
    LightFields { is_on: None, brightness: None, color: None, removed: None }
}

/// Consumes whitespace, a colon, and more whitespace before a value.
pub open spec fn after_colon(s: Seq<u8>) -> Option<Seq<u8>> {
    let t = skip_ws(s);
    if t.len() > 0 && t[0] == 58 {
        Some(skip_ws(t.drop_first()))
    } else {
        None
    }
}

/// Parses one `"key": value` pair and fills its field in. A key outside
/// the schema, a value of the wrong shape or range, or a field seen twice
/// is an error.
pub open spec fn parse_pair(s: Seq<u8>, acc: LightFields) -> Option<(LightFields, Seq<u8>)> {
    if starts_with(s, key_is_on()) {
        match after_colon(s.skip(7)) {
            Some(v) => match parse_bool(v) {
                Some(t) => if acc.is_on is Some {
                    None
                } else {
                    Some((LightFields { is_on: Some(t.0), ..acc }, t.1))
                },
                None => None,
            },
            None => None,
        }
    } else if starts_with(s, key_brightness()) {
        match after_colon(s.skip(12)) {
            Some(v) => match parse_int(v) {
                Some(t) => if acc.brightness is Some || !(0 <= t.0 <= 255) {
                    None
                } else {
                    Some((LightFields { brightness: Some(t.0 as u8), ..acc }, t.1))
                },
                None => None,
            },
            None => None,
        }
    } else if starts_with(s, key_color()) {
        match after_colon(s.skip(7)) {
            Some(v) => match parse_int(v) {
                Some(t) => if acc.color is Some || !(-2147483648 <= t.0 <= 2147483647) {
                    None
                } else {
                    Some((LightFields { color: Some(t.0 as i32), ..acc }, t.1))
                },
                None => None,
            },
            None => None,
        }
    } else if starts_with(s, key_removed()) {
        match after_colon(s.skip(9)) {
            Some(v) => match parse_bool(v) {
                Some(t) => if acc.removed is Some {
                    None
                } else {
                    Some((LightFields { removed: Some(t.0), ..acc }, t.1))
                },
                None => None,
            },
            None => None,
        }
    } else {
        None
    }
}

/// The object is closed and complete: nothing but whitespace may follow,
/// and every field of the schema must have been seen.
pub open spec fn finalize(acc: LightFields, rest: Seq<u8>) -> Option<LightState> {
    if skip_ws(rest).len() != 0 {
        None
    } else {
        match (acc.is_on, acc.brightness, acc.color, acc.removed) {
            (Some(i), Some(b), Some(c), Some(rm)) => Some(
                LightState { is_on: i, brightness: b, color: c, removed: rm },
            ),
            _ => None,
        }
    }
}

/// Parses the members of the object and the closing brace. `pairs_left`
/// bounds how many pairs may still come: the schema has four fields and a
/// field may not repeat, so a fifth pair could never make the object valid.
pub open spec fn parse_members(
    s: Seq<u8>,
    acc: LightFields,
    pairs_left: nat,
    first: bool,
) -> Option<LightState>
    decreases pairs_left,
{
    let t = skip_ws(s);
    if t.len() == 0 {
        None
    } else if t[0] == 125 {
        finalize(acc, t.drop_first())
    } else if pairs_left == 0 {
        None
    } else if !first && t[0] != 44 {
        None
    } else {
        let u = if first {
            t
        } else {
            skip_ws(t.drop_first())
        };
        match parse_pair(u, acc) {
            Some(p) => parse_members(p.1, p.0, (pairs_left - 1) as nat, false),
            None => None,
        }
    }
}

/// The light state denoted by a payload: a JSON object with exactly the
/// fields `is_on`, `brightness` (0–255), `color` (signed 32-bit) and
/// `removed`, each once, in any order, with JSON whitespace anywhere
/// between tokens. Anything else — a missing or repeated or unknown field,
/// a value of the wrong shape or range, trailing content — denotes nothing.
pub open spec fn spec_light_state(s: Seq<u8>) -> Option<LightState> {
    let t = skip_ws(s);
    if t.len() > 0 && t[0] == 123 {
        parse_members(t.drop_first(), fields_init(), 4, true)
    } else {
        None
    }
}

/// What the actuator layer must do for one decoded state: factory-reset on
/// `removed`; otherwise drive the brightness output (and, when debugging,
/// the indicator pin) or switch both off.
#[derive(Clone, Copy, PartialEq, Eq, Structural, Debug)]
pub enum LightAction {
    /// Clear the configuration flag and restart.
    Reset,
    /// Write this level to the analog output; the flag says whether the
    /// debug indicator pin goes high.
    Apply(u8, bool),
    /// Drive the analog output to zero and the indicator low.
    Off,
}

/// The actuator decision for a decoded state.
pub open spec fn spec_light_action(st: LightState, debug: bool) -> LightAction {
    if st.removed {
        LightAction::Reset
    } else if st.is_on {
        LightAction::Apply((200 + st.brightness / 5) as u8, debug)
    } else {
        LightAction::Off
    }
}

fn skip_ws_exec(s: &[u8], pos: usize) -> (q: usize)
    requires
        pos <= s@.len(),
    ensures
        pos <= q <= s@.len(),
        s@.skip(q as int) == skip_ws(s@.skip(pos as int)),
{
    let mut q = pos;
    while q < s.len() && (s[q] == 32 || s[q] == 9 || s[q] == 10 || s[q] == 13)
        invariant
            pos <= q <= s@.len(),
            skip_ws(s@.skip(pos as int)) == skip_ws(s@.skip(q as int)),
        decreases s@.len() - q,
    {
        proof {
            assert(s@.skip(q as int).drop_first() =~= s@.skip(q + 1));
        }
        q = q + 1;
    }
    proof {
        if q < s@.len() {
            assert(!is_ws(s@.skip(q as int)[0]));
        }
        assert(skip_ws(s@.skip(q as int)) == s@.skip(q as int));
    }
    q
}

fn starts_with_exec(s: &[u8], pos: usize, pat: &[u8]) -> (r: bool)
    requires
        pos <= s@.len(),
    ensures
        r == starts_with(s@.skip(pos as int), pat@),
{
    if s.len() - pos < pat.len() {
        return false;
    }
    let mut i: usize = 0;
    while i < pat.len()
        invariant
            0 <= i <= pat@.len(),
            pos + pat@.len() <= s@.len(),
            s@.len() <= usize::MAX,
            forall|k: int| 0 <= k < i ==> s@[pos + k] == pat@[k],
        decreases pat@.len() - i,
    {
        if s[pos + i] != pat[i] {
            proof {
                if starts_with(s@.skip(pos as int), pat@) {
                    assert(s@.skip(pos as int).take(pat@.len() as int)[i as int] == pat@[i as int]);
                    assert(false);
                }
            }
            return false;
        }
        i = i + 1;
    }
    proof {
        assert(s@.skip(pos as int).take(pat@.len() as int) =~= pat@);
    }
    true
}

fn key_is_on_vec() -> (v: Vec<u8>)
    ensures
        v@ == key_is_on(),
{
    let mut v: Vec<u8> = Vec::new();
    v.push(34);
    v.push(105);
    v.push(115);
    v.push(95);
    v.push(111);
    v.push(110);
    v.push(34);
    proof {
        assert(v@ =~= key_is_on());
    }
    v
}

fn key_brightness_vec() -> (v: Vec<u8>)
    ensures
        v@ == key_brightness(),
{
    let mut v: Vec<u8> = Vec::new();
    v.push(34);
    v.push(98);
    v.push(114);
    v.push(105);
    v.push(103);
    v.push(104);
    v.push(116);
    v.push(110);
    v.push(101);
    v.push(115);
    v.push(115);
    v.push(34);
    proof {
        assert(v@ =~= key_brightness());
    }
    v
}

fn key_color_vec() -> (v: Vec<u8>)
    ensures
        v@ == key_color(),
{
    let mut v: Vec<u8> = Vec::new();
    v.push(34);
    v.push(99);
    v.push(111);
    v.push(108);
    v.push(111);
    v.push(114);
    v.push(34);
    proof {
        assert(v@ =~= key_color());
    }
    v
}

fn key_removed_vec() -> (v: Vec<u8>)
    ensures
        v@ == key_removed(),
{
    let mut v: Vec<u8> = Vec::new();
    v.push(34);
    v.push(114);
    v.push(101);
    v.push(109);
    v.push(111);
    v.push(118);
    v.push(101);
    v.push(100);
    v.push(34);
    proof {
        assert(v@ =~= key_removed());
    }
    v
}

fn parse_bool_exec(s: &[u8], pos: usize) -> (r: Result<(bool, usize), DecodeError>)
    requires
        pos <= s@.len(),
    ensures
        (match parse_bool(s@.skip(pos as int)) {
            Some(t) => r matches Ok(x) && x.0 == t.0 && pos <= x.1 <= s@.len() && s@.skip(
                x.1 as int,
            ) == t.1,
            None => r is Err,
        }),
{
    let slen = s.len();
    assert(slen == s@.len());
    let mut tl: Vec<u8> = Vec::new();
    tl.push(116);
    tl.push(114);
    tl.push(117);
    tl.push(101);
    proof {
        assert(tl@ =~= lit_true());
    }
    if starts_with_exec(s, pos, tl.as_slice()) {
        proof {
            assert(pos + 4 <= s@.len());
            assert(s@.skip(pos as int).skip(4) =~= s@.skip(pos + 4));
        }
        return Ok((true, pos + 4));
    }
    let mut fl: Vec<u8> = Vec::new();
    fl.push(102);
    fl.push(97);
    fl.push(108);
    fl.push(115);
    fl.push(101);
    proof {
        assert(fl@ =~= lit_false());
    }
    if starts_with_exec(s, pos, fl.as_slice()) {
        proof {
            assert(pos + 5 <= s@.len());
            assert(s@.skip(pos as int).skip(5) =~= s@.skip(pos + 5));
        }
        return Ok((false, pos + 5));
    }
    Err(DecodeError)
}

pub proof fn lemma_digits_nonneg(s: Seq<u8>, n: int)
    requires
        0 <= n <= s.len(),
        forall|k: int| 0 <= k < n ==> is_digit(#[trigger] s[k]),
    ensures
        digits_value(s, n) >= 0,
    decreases n,
{
    if n > 0 {
        lemma_digits_nonneg(s, n - 1);
    }
}

pub proof fn lemma_digits_monotone(s: Seq<u8>, k: int, n: int)
    requires
        0 <= k <= n <= s.len(),
        forall|j: int| 0 <= j < n ==> is_digit(#[trigger] s[j]),
    ensures
        digits_value(s, n) >= digits_value(s, k),
    decreases n - k,
{
    if k < n {
        lemma_digits_monotone(s, k, n - 1);
        lemma_digits_nonneg(s, n - 1);
    }
}

proof fn lemma_count_digits_prefix(s: Seq<u8>)
    ensures
        0 <= count_digits(s) <= s.len(),
        forall|k: int| 0 <= k < count_digits(s) ==> is_digit(#[trigger] s[k]),
    decreases s.len(),
{
    if s.len() > 0 && is_digit(s[0]) {
        lemma_count_digits_prefix(s.drop_first());
        assert forall|k: int| 0 <= k < count_digits(s) implies is_digit(#[trigger] s[k]) by {
            if k > 0 {
                assert(s.drop_first()[k - 1] == s[k]);
            }
        }
    }
}

proof fn lemma_count_digits_at_least(s: Seq<u8>, n: int)
    requires
        0 <= n <= s.len(),
        forall|k: int| 0 <= k < n ==> is_digit(#[trigger] s[k]),
    ensures
        count_digits(s) >= n,
    decreases n,
{
    lemma_count_digits_prefix(s);
    if n > 0 {
        assert(is_digit(s[0]));
        assert forall|k: int| 0 <= k < n - 1 implies is_digit(#[trigger] s.drop_first()[k]) by {
            assert(s.drop_first()[k] == s[k + 1]);
        }
        lemma_count_digits_at_least(s.drop_first(), n - 1);
    }
}

proof fn lemma_count_digits_char(s: Seq<u8>, n: int)
    requires
        0 <= n <= s.len(),
        forall|k: int| 0 <= k < n ==> is_digit(#[trigger] s[k]),
        n < s.len() ==> !is_digit(s[n]),
    ensures
        count_digits(s) == n,
    decreases s.len(),
{
    if s.len() > 0 && is_digit(s[0]) {
        assert(n > 0);
        lemma_count_digits_char(s.drop_first(), n - 1);
    }
}

fn parse_int_exec(s: &[u8], pos: usize) -> (r: Result<(i64, usize), DecodeError>)
    requires
        pos <= s@.len(),
    ensures
        (match parse_int(s@.skip(pos as int)) {
            Some(t) => if -2147483648 <= t.0 <= 2147483647 {
                r matches Ok(x) && x.0 == t.0 && pos <= x.1 <= s@.len() && s@.skip(x.1 as int)
                    == t.1
            } else {
                r is Err
            },
            None => r is Err,
        }),
{
    let ghost s0 = s@.skip(pos as int);
    let mut p = pos;
    let neg = p < s.len() && s[p] == 45;
    if neg {
        p = p + 1;
        proof {
            assert(s0.drop_first() =~= s@.skip(p as int));
        }
    }
    let ghost t = s@.skip(p as int);
    if p >= s.len() || s[p] < 48 || s[p] > 57 {
        return Err(DecodeError);
    }
    if s[p] == 48 {
        // A leading zero stands alone.
        proof {
            assert(t[0] == s@[p as int]);
            assert(digits_value(t, 0) == 0);
            assert(digits_value(t, 1) == 0);
            assert(t.skip(1) =~= s@.skip(p + 1));
        }
        return Ok((0, p + 1));
    }
    let mut v: i64 = 0;
    let mut q = p;
    while q < s.len() && 48 <= s[q] && s[q] <= 57
        invariant
            pos <= p <= q <= s@.len(),
            s0 == s@.skip(pos as int),
            t == s@.skip(p as int),
            neg == (s0.len() > 0 && s0[0] == 45),
            neg ==> p == pos + 1,
            !neg ==> p == pos,
            t.len() > 0 && is_digit(t[0]) && t[0] != 48,
            forall|k: int| 0 <= k < q - p ==> is_digit(#[trigger] t[k]),
            v == digits_value(t, q - p),
            0 <= v <= 2147483648,
        decreases s@.len() - q,
    {
        let d = s[q] - 48;
        proof {
            assert(t[q - p] == s@[q as int]);
        }
        v = v * 10 + (d as i64);
        if v > 2147483648 {
            proof {
                if neg {
                    assert(s0.drop_first() =~= t);
                }
                assert(forall|k: int| 0 <= k < q + 1 - p ==> is_digit(#[trigger] t[k]));
                lemma_count_digits_prefix(t);
                lemma_count_digits_at_least(t, q + 1 - p);
                lemma_digits_monotone(t, q + 1 - p, count_digits(t));
            }
            return Err(DecodeError);
        }
        q = q + 1;
    }
    proof {
        if q < s.len() {
            assert(t[q - p] == s@[q as int]);
        }
        lemma_count_digits_char(t, q - p);
        assert(t.skip((q - p) as int) =~= s@.skip(q as int));
    }
    if neg {
        Ok((-v, q))
    } else {
        if v > 2147483647 {
            return Err(DecodeError);
        }
        Ok((v, q))
    }
}

fn after_colon_exec(s: &[u8], pos: usize) -> (r: Result<usize, DecodeError>)
    requires
        pos <= s@.len(),
    ensures
        (match after_colon(s@.skip(pos as int)) {
            Some(t) => r matches Ok(q) && pos <= q <= s@.len() && s@.skip(q as int) == t,
            None => r is Err,
        }),
{
    let q = skip_ws_exec(s, pos);
    if q < s.len() && s[q] == 58 {
        proof {
            assert(s@.skip(q as int).drop_first() =~= s@.skip(q + 1));
        }
        let q2 = skip_ws_exec(s, q + 1);
        Ok(q2)
    } else {
        Err(DecodeError)
    }
}

#[verifier::rlimit(100)]
fn parse_pair_exec(s: &[u8], pos: usize, acc: LightFields) -> (r: Result<
    (LightFields, usize),
    DecodeError,
>)
    requires
        pos <= s@.len(),
    ensures
        (match parse_pair(s@.skip(pos as int), acc) {
            Some(t) => r matches Ok(x) && x.0 == t.0 && pos <= x.1 <= s@.len() && s@.skip(
                x.1 as int,
            ) == t.1,
            None => r is Err,
        }),
{
    let slen = s.len();
    assert(slen == s@.len());
    let k1 = key_is_on_vec();
    if starts_with_exec(s, pos, k1.as_slice()) {
        proof {
            assert(pos + 7 <= s@.len());
            assert(s@.skip(pos as int).skip(7) =~= s@.skip(pos + 7));
        }
        let vq = match after_colon_exec(s, pos + 7) {
            Ok(vq) => vq,
            Err(e) => {
                return Err(e);
            },
        };
        let (b, np) = match parse_bool_exec(s, vq) {
            Ok(x) => x,
            Err(e) => {
                return Err(e);
            },
        };
        if acc.is_on.is_some() {
            return Err(DecodeError);
        }
        return Ok((LightFields { is_on: Some(b), ..acc }, np));
    }
    let k2 = key_brightness_vec();
    if starts_with_exec(s, pos, k2.as_slice()) {
        proof {
            assert(pos + 12 <= s@.len());
            assert(s@.skip(pos as int).skip(12) =~= s@.skip(pos + 12));
        }
        let vq = match after_colon_exec(s, pos + 12) {
            Ok(vq) => vq,
            Err(e) => {
                return Err(e);
            },
        };
        let (n, np) = match parse_int_exec(s, vq) {
            Ok(x) => x,
            Err(e) => {
                return Err(e);
            },
        };
        if acc.brightness.is_some() || n < 0 || n > 255 {
            return Err(DecodeError);
        }
        return Ok((LightFields { brightness: Some(n as u8), ..acc }, np));
    }
    let k3 = key_color_vec();
    if starts_with_exec(s, pos, k3.as_slice()) {
        proof {
            assert(pos + 7 <= s@.len());
            assert(s@.skip(pos as int).skip(7) =~= s@.skip(pos + 7));
        }
        let vq = match after_colon_exec(s, pos + 7) {
            Ok(vq) => vq,
            Err(e) => {
                return Err(e);
            },
        };
        let (n, np) = match parse_int_exec(s, vq) {
            Ok(x) => x,
            Err(e) => {
                return Err(e);
            },
        };
        if acc.color.is_some() {
            return Err(DecodeError);
        }
        return Ok((LightFields { color: Some(n as i32), ..acc }, np));
    }
    let k4 = key_removed_vec();
    if starts_with_exec(s, pos, k4.as_slice()) {
        proof {
            assert(pos + 9 <= s@.len());
            assert(s@.skip(pos as int).skip(9) =~= s@.skip(pos + 9));
        }
        let vq = match after_colon_exec(s, pos + 9) {
            Ok(vq) => vq,
            Err(e) => {
                return Err(e);
            },
        };
        let (b, np) = match parse_bool_exec(s, vq) {
            Ok(x) => x,
            Err(e) => {
                return Err(e);
            },
        };
        if acc.removed.is_some() {
            return Err(DecodeError);
        }
        return Ok((LightFields { removed: Some(b), ..acc }, np));
    }
    Err(DecodeError)
}

/// Parses a notification payload into a light state. Succeeds on exactly
/// the payloads that denote one (see [`spec_light_state`]); a missing,
/// repeated or unknown field, a malformed value, or trailing content is a
/// decode error, never a panic.
pub fn parse_light_state(payload: &[u8]) -> (r: Result<LightState, DecodeError>)
    ensures
        (match spec_light_state(payload@) {
            Some(st) => r == Result::<LightState, DecodeError>::Ok(st),
            None => r == Result::<LightState, DecodeError>::Err(DecodeError),
        }),
{
    proof {
        assert(payload@.skip(0) =~= payload@);
    }
    let t = skip_ws_exec(payload, 0);
    if t >= payload.len() || payload[t] != 123 {
        return Err(DecodeError);
    }
    proof {
        assert(payload@.skip(t as int).drop_first() =~= payload@.skip(t + 1));
    }
    let mut pos = t + 1;
    let mut acc = LightFields { is_on: None, brightness: None, color: None, removed: None };
    let mut pairs_left: u8 = 4;
    let mut first = true;
    while pairs_left <= 4
        invariant
            pos <= payload@.len(),
            pairs_left <= 4,
            parse_members(payload@.skip(pos as int), acc, pairs_left as nat, first)
                == spec_light_state(payload@),
        decreases pairs_left,
    {
        let ghost sm = payload@.skip(pos as int);
        let t2 = skip_ws_exec(payload, pos);
        if t2 >= payload.len() {
            return Err(DecodeError);
        }
        if payload[t2] == 125 {
            proof {
                assert(payload@.skip(t2 as int).drop_first() =~= payload@.skip(t2 + 1));
            }
            let e = skip_ws_exec(payload, t2 + 1);
            if e < payload.len() {
                return Err(DecodeError);
            }
            proof {
                assert(payload@.skip(e as int) =~= Seq::<u8>::empty());
            }
            if let (Some(i), Some(b), Some(c), Some(rm)) = (
                acc.is_on,
                acc.brightness,
                acc.color,
                acc.removed,
            ) {
                return Ok(LightState { is_on: i, brightness: b, color: c, removed: rm });
            }
            return Err(DecodeError);
        }
        if pairs_left == 0 {
            return Err(DecodeError);
        }
        let u: usize;
        if first {
            u = t2;
        } else {
            if payload[t2] != 44 {
                return Err(DecodeError);
            }
            proof {
                assert(payload@.skip(t2 as int).drop_first() =~= payload@.skip(t2 + 1));
            }
            u = skip_ws_exec(payload, t2 + 1);
        }
        match parse_pair_exec(payload, u, acc) {
            Err(_) => {
                return Err(DecodeError);
            },
            Ok((acc2, rest)) => {
                acc = acc2;
                pos = rest;
                pairs_left = pairs_left - 1;
                first = false;
            },
        }
    }
    // Unreachable: every path through the loop body either returns or
    // decreases `pairs_left`, and a zero budget returns above.
    Err(DecodeError)
}

/// The verified half of the notification callback: decodes the payload and
/// decides the actuator's next move. The caller performs the action and
/// reports a decode failure as a dropped notification.
pub fn handle_payload(payload: &[u8], debug: bool) -> (r: Result<LightAction, DecodeError>)
    ensures
        (match spec_light_state(payload@) {
            Some(st) => r == Result::<LightAction, DecodeError>::Ok(spec_light_action(st, debug)),
            None => r == Result::<LightAction, DecodeError>::Err(DecodeError),
        }),
{
    match parse_light_state(payload) {
        Ok(st) => Ok(light_action(&st, debug)),
        Err(e) => Err(e),
    }
}

/// Decides what the actuator does for one decoded state. The level scales
/// the 0–255 brightness down to a fifth and offsets it by 200, which never
/// overflows.
pub fn light_action(state: &LightState, debug: bool) -> (a: LightAction)
    ensures
        a == spec_light_action(*state, debug),
{
    if state.removed {
        LightAction::Reset
    } else if state.is_on {
        LightAction::Apply(200 + state.brightness / 5, debug)
    } else {
        LightAction::Off
    }
}

} // verus!
