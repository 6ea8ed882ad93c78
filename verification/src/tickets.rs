//! Short-lived WebSocket tickets: `{run_id}.{expires_at}.{hex_hmac}`, signed
//! with HMAC-SHA256 under a shared secret. Times are Unix seconds.

use vstd::prelude::*;

use hmac::{Hmac, Mac};
use sha2::Sha256;
use vstd::string::StringSliceAdditionalSpecFns;

verus! {

/// Seconds a ticket stays valid after it is minted.
pub const TICKET_TTL_SECONDS: i64 = 45;

/// HMAC-SHA256 of `msg` under `key`, as computed by the hmac and sha2 crates.
pub uninterp spec fn hmac_sha256(key: Seq<u8>, msg: Seq<u8>) -> Seq<u8>;

/// Calls `Hmac::<Sha256>::new_from_slice`, `Mac::update` and `Mac::finalize`
/// (hmac crate over sha2). The contract claims that the tag is a function of
/// the key and the message alone, 32 bytes long; `new_from_slice` accepts keys
/// of every length (longer keys are hashed), so it never fails.
#[verifier::external_body]
fn hmac_sha256_tag(key: &[u8], msg: &[u8]) -> (tag: Vec<u8>)
    ensures
        tag@ == hmac_sha256(key@, msg@),
        tag@.len() == 32,
{
    let mut mac = <Hmac<Sha256> as Mac>::new_from_slice(key).expect("HMAC takes keys of any length");
    mac.update(msg);
    mac.finalize().into_bytes().to_vec()
}

/// Lower-case hexadecimal digit of `d` (below 16).
pub open spec fn hex_digit(d: u8) -> u8 {
    if d < 10 { (48 + d) as u8 } else { (87 + d) as u8 }
}

/// Lower-case hexadecimal text of `b`, two digits per byte.
pub open spec fn hex_text(b: Seq<u8>) -> Seq<u8>
    decreases b.len(),
{
    if b.len() == 0 {
        Seq::empty()
    } else {
        hex_text(b.drop_last()) + seq![hex_digit(b.last() / 16), hex_digit(b.last() % 16)]
    }
}

fn hex_encode(b: &Vec<u8>) -> (s: Vec<u8>)
    ensures
        s@ == hex_text(b@),
{
    let mut out: Vec<u8> = Vec::new();
    let mut i: usize = 0;
    while i < b.len()
        invariant
            i <= b@.len(),
            out@ == hex_text(b@.take(i as int)),
        decreases b.len() - i,
    {
        let x = b[i];
        let hi = x / 16;
        let lo = x % 16;
        out.push(if hi < 10 { 48 + hi } else { 87 + hi });
        out.push(if lo < 10 { 48 + lo } else { 87 + lo });
        proof {
            let t = b@.take(i as int + 1);
            assert(t.drop_last() == b@.take(i as int));
            assert(t.last() == b@[i as int]);
            assert(out@ =~= hex_text(t));
        }
        i = i + 1;
    }
    proof {
        assert(b@.take(i as int) == b@);
    }
    out
}

/// Byte text of the signature of `payload` under `secret`.
pub open spec fn signature(secret: Seq<u8>, payload: Seq<u8>) -> Seq<u8> {
    hex_text(hmac_sha256(secret, payload))
}

/// Hex-encoded HMAC-SHA256 of `payload` under `secret`.
pub fn sign(secret: &str, payload: &str) -> (s: Vec<u8>)
    ensures
        s@ == signature(secret.spec_bytes(), payload.spec_bytes()),
{
    let tag = hmac_sha256_tag(secret.as_bytes(), payload.as_bytes());
    hex_encode(&tag)
}

/// Decimal text of `n`, with a leading `-` when negative.
pub open spec fn int_text(n: int) -> Seq<u8> {
    if n < 0 { seq![45u8] + digits(-n) } else { digits(n) }
}

/// Decimal digits of `n >= 0`, most significant first.
pub open spec fn digits(n: int) -> Seq<u8>
    decreases n,
{
    if n < 10 {
        seq![(48 + n) as u8]
    } else if n > 0 {
        digits(n / 10).push((48 + n % 10) as u8)
    } else {
        Seq::empty()
    }
}

fn push_digits(out: &mut Vec<u8>, n: u64)
    ensures
        final(out)@ == old(out)@ + digits(n as int),
    decreases n,
{
    if n < 10 {
        out.push(48 + n as u8);
        proof {
            assert(final(out)@ =~= old(out)@ + digits(n as int));
        }
    } else {
        push_digits(out, n / 10);
        out.push(48 + (n % 10) as u8);
        proof {
            assert(final(out)@ =~= old(out)@ + digits(n as int));
        }
    }
}

fn push_int(out: &mut Vec<u8>, n: i64)
    ensures
        final(out)@ == old(out)@ + int_text(n as int),
{
    if n < 0 {
        out.push(45);
        let m: u64 = if n == i64::MIN { 0x8000_0000_0000_0000u64 } else { (-n) as u64 };
        push_digits(out, m);
        proof {
            assert(final(out)@ =~= old(out)@ + int_text(n as int));
        }
    } else {
        push_digits(out, n as u64);
    }
}

fn push_bytes(out: &mut Vec<u8>, b: &[u8])
    ensures
        final(out)@ == old(out)@ + b@,
{
    let mut i: usize = 0;
    while i < b.len()
        invariant
            i <= b@.len(),
            out@ == old(out)@ + b@.take(i as int),
        decreases b.len() - i,
    {
        out.push(b[i]);
        proof {
            assert(b@.take(i as int + 1) == b@.take(i as int).push(b@[i as int]));
            assert(out@ =~= old(out)@ + b@.take(i as int + 1));
        }
        i = i + 1;
    }
    proof {
        assert(b@.take(i as int) == b@);
    }
}

/// Expiry of a ticket minted at `now`.
pub open spec fn expiry(now: i64) -> int {
    if now <= i64::MAX - TICKET_TTL_SECONDS { now + TICKET_TTL_SECONDS } else { i64::MAX as int }
}

/// The ticket for run `run_id` minted at `now`: `{run_id}.{expiry}.{signature}`,
/// the signature taken over `{run_id}.{expiry}`.
pub open spec fn ticket_text(secret: Seq<u8>, run_id: Seq<u8>, now: i64) -> Seq<u8> {
    let payload = run_id + seq![46u8] + int_text(expiry(now));
    payload + seq![46u8] + signature(secret, payload)
}

/// Mints a ticket for `run_id`, valid for 45 seconds from `now`.
pub fn mint_ticket(secret: &str, run_id: &str, now: i64) -> (t: Vec<u8>)
    ensures
        t@ == ticket_text(secret.spec_bytes(), run_id.spec_bytes(), now),
{
    let expires_at: i64 = if now <= i64::MAX - TICKET_TTL_SECONDS { now + TICKET_TTL_SECONDS } else { i64::MAX };
    let mut payload: Vec<u8> = Vec::new();
    push_bytes(&mut payload, run_id.as_bytes());
    payload.push(46);
    push_int(&mut payload, expires_at);
    let tag = hmac_sha256_tag(secret.as_bytes(), payload.as_slice());
    let sig = hex_encode(&tag);
    let mut out: Vec<u8> = Vec::new();
    push_bytes(&mut out, payload.as_slice());
    out.push(46);
    push_bytes(&mut out, sig.as_slice());
    proof {
        assert(payload@ =~= run_id.spec_bytes() + seq![46u8] + int_text(expiry(now)));
        assert(out@ =~= payload@ + seq![46u8] + sig@);
    }
    out
}

/// Index of the first `.` of `b` at or after `from`, or -1.
pub open spec fn dot_from(b: Seq<u8>, from: int) -> int
    decreases b.len() - from,
{
    if from < 0 || from >= b.len() {
        -1
    } else if b[from] == 46 {
        from
    } else {
        dot_from(b, from + 1)
    }
}

/// Value of the decimal digits `d`, or `None` if some byte is not a digit or none is given.
pub open spec fn digits_value(d: Seq<u8>) -> Option<int>
    decreases d.len(),
{
    if d.len() == 0 {
        None
    } else if !(48 <= d.last() <= 57) {
        None
    } else if d.len() == 1 {
        Some(d.last() - 48)
    } else {
        match digits_value(d.drop_last()) {
            Some(v) => Some(v * 10 + (d.last() - 48)),
            None => None,
        }
    }
}

/// How `str::parse::<i64>` reads `b`: an optional `+` or `-`, then one or more
/// ASCII digits, with a value that fits.
pub open spec fn parse_i64(b: Seq<u8>) -> Option<i64> {
    let (neg, d) = if b.len() > 0 && b[0] == 45 {
        (true, b.drop_first())
    } else if b.len() > 0 && b[0] == 43 {
        (false, b.drop_first())
    } else {
        (false, b)
    };
    match digits_value(d) {
        Some(v) => {
            let x = if neg { -v } else { v };
            if i64::MIN <= x <= i64::MAX { Some(x as i64) } else { None }
        },
        None => None,
    }
}

proof fn lemma_digits_value_nonneg(d: Seq<u8>)
    ensures
        digits_value(d) matches Some(v) ==> v >= 0,
    decreases d.len(),
{
    if d.len() > 1 {
        lemma_digits_value_nonneg(d.drop_last());
    }
}

/// Value of the digits `b[start..to]` when it is at most `2^63`.
fn digits_at(b: &[u8], start: usize, to: usize) -> (r: Option<u64>)
    requires
        start <= to <= b@.len(),
    ensures
        match r {
            Some(v) => digits_value(b@.subrange(start as int, to as int)) == Some(v as int) && v <= 0x8000_0000_0000_0000,
            None => match digits_value(b@.subrange(start as int, to as int)) {
                Some(v) => v > 0x8000_0000_0000_0000,
                None => true,
            },
        },
{
    let ghost d = b@.subrange(start as int, to as int);
    if start == to {
        return None;
    }
    let mut v: u64 = 0;
    let mut i = start;
    while i < to
        invariant
            start < to <= b@.len(),
            start <= i <= to,
            d == b@.subrange(start as int, to as int),
            i > start ==> digits_value(b@.subrange(start as int, i as int)) == Some(v as int),
            i == start ==> v == 0,
            v <= 0x8000_0000_0000_0000,
        decreases to - i,
    {
        let c = b[i];
        let ghost p = b@.subrange(start as int, i as int + 1);
        proof {
            assert(p.drop_last() =~= b@.subrange(start as int, i as int));
            assert(p.last() == c);
            assert(d[(i - start) as int] == c);
            assert(p =~= d.take((i - start + 1) as int));
        }
        if c < 48 || c > 57 {
            proof {
                lemma_digits_value_prefix_none(d, (i - start) as int);
            }
            return None;
        }
        let nv: u128 = (v as u128) * 10 + (c - 48) as u128;
        proof {
            if i == start {
                assert(p.len() == 1);
            } else {
                assert(p.len() > 1);
                assert(digits_value(p.drop_last()) == Some(v as int));
            }
            assert(digits_value(p) == Some(nv as int));
        }
        if nv > 0x8000_0000_0000_0000 {
            proof {
                lemma_digits_value_monotone(d, (i - start + 1) as int, nv as int);
            }
            return None;
        }
        v = nv as u64;
        i = i + 1;
    }
    proof {
        assert(b@.subrange(start as int, i as int) =~= d);
    }
    Some(v)
}

/// Parses `b[from..to]` as `str::parse::<i64>` does.
fn parse_i64_at(b: &[u8], from: usize, to: usize) -> (r: Option<i64>)
    requires
        from <= to <= b@.len(),
    ensures
        r == parse_i64(b@.subrange(from as int, to as int)),
{
    let ghost s = b@.subrange(from as int, to as int);
    let mut i = from;
    let mut neg = false;
    if i < to && b[i] == 45 {
        neg = true;
        i = i + 1;
    } else if i < to && b[i] == 43 {
        i = i + 1;
    }
    let ghost d = b@.subrange(i as int, to as int);
    proof {
        if from < to && (b@[from as int] == 45 || b@[from as int] == 43) {
            assert(d =~= s.drop_first());
        } else {
            assert(d =~= s);
        }
        lemma_digits_value_nonneg(d);
    }
    match digits_at(b, i, to) {
        None => None,
        Some(v) => {
            if neg {
                if v == 0x8000_0000_0000_0000 {
                    Some(i64::MIN)
                } else {
                    Some(-(v as i64))
                }
            } else if v > 0x7fff_ffff_ffff_ffff {
                None
            } else {
                Some(v as i64)
            }
        },
    }
}

/// A non-digit in a prefix makes the whole text unreadable.
proof fn lemma_digits_value_prefix_none(d: Seq<u8>, k: int)
    requires
        0 <= k < d.len(),
        !(48 <= d[k] <= 57),
    ensures
        digits_value(d) is None,
    decreases d.len(),
{
    if k < d.len() - 1 {
        lemma_digits_value_prefix_none(d.drop_last(), k);
    }
}

/// Once a prefix reads more than `2^63`, the whole text does too or is unreadable.
proof fn lemma_digits_value_monotone(d: Seq<u8>, k: int, bound: int)
    requires
        0 < k <= d.len(),
        digits_value(d.take(k)) == Some(bound),
        bound > 0x8000_0000_0000_0000,
    ensures
        match digits_value(d) {
            Some(v) => v > 0x8000_0000_0000_0000,
            None => true,
        },
    decreases d.len(),
{
    if k == d.len() {
        assert(d.take(k) == d);
    } else {
        assert(d.drop_last().take(k) == d.take(k));
        lemma_digits_value_monotone(d.drop_last(), k, bound);
        lemma_digits_value_nonneg(d.drop_last());
    }
}

/// The ticket is accepted for `run_id` at `now`: it has three dot-separated
/// parts (the last may hold further dots), the first is `run_id`, the second
/// reads as an expiry no earlier than `now`, and the third is the signature of
/// the first two parts joined by a dot.
pub open spec fn accepts(secret: Seq<u8>, run_id: Seq<u8>, ticket: Seq<u8>, now: i64) -> bool {
    let a = dot_from(ticket, 0);
    let b = dot_from(ticket, a + 1);
    &&& a >= 0
    &&& b >= 0
    &&& ticket.subrange(0, a) == run_id
    &&& parse_i64(ticket.subrange(a + 1, b)) matches Some(exp) && now <= exp
    &&& ticket.subrange(b + 1, ticket.len() as int) == signature(secret, ticket.subrange(0, b))
}

proof fn lemma_dot_from_bounds(b: Seq<u8>, from: int)
    ensures
        dot_from(b, from) == -1 || (from <= dot_from(b, from) < b.len() && b[dot_from(b, from)] == 46),
        from >= 0 ==> forall|k: int| from <= k < (if dot_from(b, from) >= 0 { dot_from(b, from) } else { b.len() as int }) ==> b[k] != 46,
    decreases b.len() - from,
{
    if from >= 0 && from < b.len() && b[from] != 46 {
        lemma_dot_from_bounds(b, from + 1);
    }
}

fn find_dot(b: &[u8], from: usize) -> (r: Option<usize>)
    requires
        from <= b@.len(),
    ensures
        match r {
            Some(k) => k as int == dot_from(b@, from as int),
            None => dot_from(b@, from as int) == -1,
        },
{
    let mut i = from;
    while i < b.len()
        invariant
            from <= i <= b@.len(),
            dot_from(b@, from as int) == dot_from(b@, i as int),
        decreases b.len() - i,
    {
        if b[i] == 46 {
            return Some(i);
        }
        i = i + 1;
    }
    None
}

/// Compares two byte strings without stopping at the first difference.
pub fn constant_time_eq(a: &[u8], b: &[u8]) -> (r: bool)
    ensures
        r == (a@ == b@),
{
    if a.len() != b.len() {
        return false;
    }
    let mut diff: u8 = 0;
    let mut i: usize = 0;
    proof {
        assert(a@.take(0) =~= b@.take(0));
    }
    while i < a.len()
        invariant
            a@.len() == b@.len(),
            i <= a@.len(),
            (diff == 0) == (a@.take(i as int) == b@.take(i as int)),
        decreases a.len() - i,
    {
        let x = a[i];
        let y = b[i];
        proof {
            assert(a@.take(i as int + 1) == a@.take(i as int).push(x));
            assert(b@.take(i as int + 1) == b@.take(i as int).push(y));
            assert((x ^ y == 0) == (x == y)) by (bit_vector);
            assert(((diff | (x ^ y)) == 0) == (diff == 0 && (x ^ y) == 0)) by (bit_vector);
            if a@.take(i as int) == b@.take(i as int) && x == y {
                assert(a@.take(i as int + 1) == b@.take(i as int + 1));
            }
            if a@.take(i as int + 1) == b@.take(i as int + 1) {
                assert(a@.take(i as int + 1).drop_last() == a@.take(i as int));
                assert(b@.take(i as int + 1).drop_last() == b@.take(i as int));
                assert(a@.take(i as int + 1).last() == x);
                assert(b@.take(i as int + 1).last() == y);
            }
        }
        diff = diff | (x ^ y);
        i = i + 1;
    }
    proof {
        assert(a@.take(i as int) == a@);
        assert(b@.take(i as int) == b@);
    }
    diff == 0
}

/// Whether `ticket` was minted for exactly `run_id`, has not expired at `now`,
/// and carries a valid signature.
pub fn verify_ticket(secret: &str, run_id: &str, ticket: &[u8], now: i64) -> (ok: bool)
    ensures
        ok == accepts(secret.spec_bytes(), run_id.spec_bytes(), ticket@, now),
{
    let t = ticket;
    let n = t.len();
    proof {
        lemma_dot_from_bounds(t@, 0);
    }
    let a = match find_dot(t, 0) {
        Some(a) => a,
        None => return false,
    };
    proof {
        lemma_dot_from_bounds(t@, a as int + 1);
    }
    let b = match find_dot(t, a + 1) {
        Some(b) => b,
        None => return false,
    };
    let id = run_id.as_bytes();
    if !bytes_range_eq(t, 0, a, id) {
        return false;
    }
    let exp = match parse_i64_at(t, a + 1, b) {
        Some(e) => e,
        None => return false,
    };
    if now > exp {
        return false;
    }
    let mut payload: Vec<u8> = Vec::new();
    let mut k: usize = 0;
    while k < b
        invariant
            k <= b < t@.len(),
            payload@ == t@.subrange(0, k as int),
        decreases b - k,
    {
        payload.push(t[k]);
        proof {
            assert(payload@ =~= t@.subrange(0, k as int + 1));
        }
        k = k + 1;
    }
    let tag = hmac_sha256_tag(secret.as_bytes(), payload.as_slice());
    let expected = hex_encode(&tag);
    let mut sig: Vec<u8> = Vec::new();
    let mut m: usize = b + 1;
    while m < t.len()
        invariant
            b + 1 <= m <= t@.len(),
            sig@ == t@.subrange(b as int + 1, m as int),
        decreases t.len() - m,
    {
        sig.push(t[m]);
        proof {
            assert(sig@ =~= t@.subrange(b as int + 1, m as int + 1));
        }
        m = m + 1;
    }
    constant_time_eq(expected.as_slice(), sig.as_slice())
}

/// Whether `b[from..to]` equals `x`.
fn bytes_range_eq(b: &[u8], from: usize, to: usize, x: &[u8]) -> (r: bool)
    requires
        from <= to <= b@.len(),
    ensures
        r == (b@.subrange(from as int, to as int) == x@),
{
    if to - from != x.len() {
        return false;
    }
    let mut i: usize = 0;
    while i < x.len()
        invariant
            to - from == x@.len(),
            from <= to <= b@.len(),
            i <= x@.len(),
            forall|k: int| 0 <= k < i ==> b@[from + k] == x@[k],
        decreases x.len() - i,
    {
        if b[from + i] != x[i] {
            proof {
                assert(b@.subrange(from as int, to as int)[i as int] != x@[i as int]);
            }
            return false;
        }
        i = i + 1;
    }
    proof {
        assert(b@.subrange(from as int, to as int) =~= x@);
    }
    true
}

/// The first `.` at or after `from` is at `x` when none comes before it.
proof fn lemma_dot_at(b: Seq<u8>, from: int, x: int)
    requires
        0 <= from <= x < b.len(),
        b[x] == 46,
        forall|k: int| from <= k < x ==> b[k] != 46,
    ensures
        dot_from(b, from) == x,
    decreases x - from,
{
    if from < x {
        lemma_dot_at(b, from + 1, x);
    }
}

/// Decimal digits are ASCII digits, and there is at least one.
proof fn lemma_digits_shape(n: int)
    requires
        n >= 0,
    ensures
        digits(n).len() >= 1,
        forall|k: int| 0 <= k < digits(n).len() ==> 48 <= #[trigger] digits(n)[k] <= 57,
    decreases n,
{
    if n >= 10 {
        lemma_digits_shape(n / 10);
        assert forall|k: int| 0 <= k < digits(n).len() implies 48 <= #[trigger] digits(n)[k] <= 57 by {
            if k < digits(n / 10).len() {
                assert(digits(n)[k] == digits(n / 10)[k]);
            }
        }
    }
}

/// Reading the digits of `n` gives `n` back.
proof fn lemma_digits_round_trip(n: int)
    requires
        n >= 0,
    ensures
        digits_value(digits(n)) == Some(n),
    decreases n,
{
    if n >= 10 {
        lemma_digits_round_trip(n / 10);
        lemma_digits_shape(n / 10);
        let d = digits(n);
        assert(d.drop_last() == digits(n / 10));
        assert(d.last() == (48 + n % 10) as u8);
        assert((n / 10) * 10 + n % 10 == n) by (nonlinear_arith)
            requires n >= 0;
    }
}

/// Parsing the decimal text of an `i64` gives it back.
proof fn lemma_int_text_round_trip(n: i64)
    ensures
        parse_i64(int_text(n as int)) == Some(n),
        forall|k: int| 0 <= k < int_text(n as int).len() ==> #[trigger] int_text(n as int)[k] != 46,
{
    if n < 0 {
        lemma_digits_round_trip(-n);
        lemma_digits_shape(-n);
        let t = int_text(n as int);
        assert(t.drop_first() == digits(-n));
        assert forall|k: int| 0 <= k < t.len() implies #[trigger] t[k] != 46 by {
            if k > 0 {
                assert(t[k] == digits(-n)[k - 1]);
            }
        }
    } else {
        lemma_digits_round_trip(n as int);
        lemma_digits_shape(n as int);
        assert(int_text(n as int)[0] != 45 && int_text(n as int)[0] != 43);
    }
}

/// A ticket that `mint_ticket` gives for a run at `minted_at` passes
/// `verify_ticket` for that run and secret at any `now` up to 45 seconds later
/// (run ids hold no `.`, as UUIDs do not).
pub proof fn law_minted_ticket_verifies(secret: Seq<u8>, run_id: Seq<u8>, minted_at: i64, now: i64)
    requires
        forall|k: int| 0 <= k < run_id.len() ==> run_id[k] != 46,
        now <= minted_at + TICKET_TTL_SECONDS,
    ensures
        accepts(secret, run_id, ticket_text(secret, run_id, minted_at), now),
{
    let e = expiry(minted_at) as i64;
    assert(e as int == expiry(minted_at));
    lemma_int_text_round_trip(e);
    let text = int_text(e as int);
    let payload = run_id + seq![46u8] + text;
    let sig = signature(secret, payload);
    let t = payload + seq![46u8] + sig;
    assert(t == ticket_text(secret, run_id, minted_at));
    let a = run_id.len() as int;
    let b = payload.len() as int;
    assert(t[a] == 46);
    assert forall|k: int| 0 <= k < a implies t[k] != 46 by {
        assert(t[k] == run_id[k]);
    }
    lemma_dot_at(t, 0, a);
    assert(t[b] == 46);
    assert forall|k: int| a + 1 <= k < b implies t[k] != 46 by {
        assert(t[k] == text[k - a - 1]);
    }
    lemma_dot_at(t, a + 1, b);
    assert(t.subrange(0, a) =~= run_id);
    assert(t.subrange(a + 1, b) =~= text);
    assert(t.subrange(0, b) =~= payload);
    assert(t.subrange(b + 1, t.len() as int) =~= sig);
}

/// A ticket minted for one run is refused for any other run, and refused for
/// its own run once it has expired.
pub proof fn law_ticket_refused_elsewhere_or_late(secret: Seq<u8>, run_id: Seq<u8>, other: Seq<u8>, minted_at: i64, now: i64)
    requires
        forall|k: int| 0 <= k < run_id.len() ==> run_id[k] != 46,
    ensures
        other != run_id ==> !accepts(secret, other, ticket_text(secret, run_id, minted_at), now),
        now > expiry(minted_at) ==> !accepts(secret, run_id, ticket_text(secret, run_id, minted_at), now),
{
    let e = expiry(minted_at) as i64;
    lemma_int_text_round_trip(e);
    let text = int_text(e as int);
    let payload = run_id + seq![46u8] + text;
    let t = payload + seq![46u8] + signature(secret, payload);
    let a = run_id.len() as int;
    let b = payload.len() as int;
    assert forall|k: int| 0 <= k < a implies t[k] != 46 by {
        assert(t[k] == run_id[k]);
    }
    lemma_dot_at(t, 0, a);
    assert forall|k: int| a + 1 <= k < b implies t[k] != 46 by {
        assert(t[k] == text[k - a - 1]);
    }
    lemma_dot_at(t, a + 1, b);
    assert(t.subrange(0, a) =~= run_id);
    assert(t.subrange(a + 1, b) =~= text);
}

} // verus!
