//! Engine launch arguments: the `-warp` arguments that start a source port
//! on the map being edited, read from the map's lump name (ExMy or MAPnn).

use vstd::prelude::*;
use vstd::string::StringSliceAdditionalSpecFns;

use crate::analysis::{to_upper, upper};

verus! {

broadcast use vstd::string::to_string_from_display_ensures_for_str;

pub open spec fn is_digit(b: u8) -> bool {
    48 <= b <= 57
}

pub open spec fn digit_char(d: int) -> char {
    (d + 48) as char
}

/// Decimal form of `n`, without leading zeros.
pub open spec fn decimal(n: nat) -> Seq<char>
    decreases n,
{
    if n < 10 {
        seq![digit_char(n as int)]
    } else {
        decimal(n / 10).push(digit_char((n % 10) as int))
    }
}

/// `u32::to_string`: the number's decimal form.
#[verifier::external_body]
fn decimal_string(n: u32) -> (s: String)
    ensures
        s@ == decimal(n as nat),
{
    n.to_string()
}

/// Value of a string of decimal digits.
pub open spec fn digits_value(d: Seq<u8>) -> nat
    decreases d.len(),
{
    if d.len() == 0 {
        0
    } else {
        digits_value(d.drop_last()) * 10 + (d.last() - 48) as nat
    }
}

pub open spec fn all_digits(d: Seq<u8>) -> bool {
    forall|i: int| 0 <= i < d.len() ==> is_digit(#[trigger] d[i])
}

/// The digits `u32::from_str` reads: all but a leading '+'.
pub open spec fn u32_digits(s: Seq<u8>) -> Seq<u8> {
    if s.len() > 0 && s[0] == 43 {
        s.drop_first()
    } else {
        s
    }
}

/// What `u32::from_str` gives for `s`: one or more digits after an optional
/// '+', of a value that fits.
pub open spec fn parses_u32(s: Seq<u8>) -> Option<nat> {
    let d = u32_digits(s);
    if d.len() > 0 && all_digits(d) && digits_value(d) <= u32::MAX {
        Some(digits_value(d))
    } else {
        None
    }
}

/// Launch arguments for a map name: ExMy gives `-warp x y`, MAPnn gives
/// `-warp n`; upper or lower case alike.
pub open spec fn warp_spec(name: Seq<u8>) -> Option<Seq<Seq<char>>> {
    let up = upper(name);
    if up.len() == 4 && up[0] == 69 && up[2] == 77 {
        if is_digit(up[1]) && is_digit(up[3]) {
            Some(seq!["-warp"@, decimal((up[1] - 48) as nat), decimal((up[3] - 48) as nat)])
        } else {
            None
        }
    } else if up.len() >= 3 && up[0] == 77 && up[1] == 65 && up[2] == 80 {
        match parses_u32(up.subrange(3, up.len() as int)) {
            Some(n) => Some(seq!["-warp"@, decimal(n)]),
            None => None,
        }
    } else {
        None
    }
}

pub open spec fn capped(v: nat) -> nat {
    if v > 4294967296 {
        4294967296
    } else {
        v
    }
}

/// `u32::from_str` on bytes.
fn parse_u32(s: &Vec<u8>, from: usize) -> (r: Option<u32>)
    requires
        from <= s@.len(),
    ensures
        match r {
            Some(n) => parses_u32(s@.subrange(from as int, s@.len() as int)) == Some(n as nat),
            None => parses_u32(s@.subrange(from as int, s@.len() as int)) is None,
        },
{
    let ghost t = s@.subrange(from as int, s@.len() as int);
    let mut i = from;
    if i < s.len() && s[i] == 43u8 {
        i = i + 1;
    }
    let ghost d = s@.subrange(i as int, s@.len() as int);
    assert(d == u32_digits(t));
    if i >= s.len() {
        return None;
    }
    let start = i;
    let mut v: u64 = 0;
    while i < s.len()
        invariant
            start <= i <= s@.len(),
            d == s@.subrange(start as int, s@.len() as int),
            d == u32_digits(t),
            t == s@.subrange(from as int, s@.len() as int),
            all_digits(s@.subrange(start as int, i as int)),
            v as nat == capped(digits_value(s@.subrange(start as int, i as int))),
        decreases s@.len() - i,
    {
        let b = s[i];
        if b < 48u8 || b > 57u8 {
            assert(!is_digit(d[i - start]));
            assert(!all_digits(d));
            return None;
        }
        let ghost pre = s@.subrange(start as int, i as int);
        let ghost nxt = s@.subrange(start as int, i + 1);
        assert(nxt.drop_last() =~= pre);
        let nv: u64 = v * 10 + (b - 48u8) as u64;
        v = if nv > 4294967296u64 { 4294967296u64 } else { nv };
        i = i + 1;
    }
    assert(s@.subrange(start as int, i as int) =~= d);
    if v > 4294967295u64 {
        None
    } else {
        Some(v as u32)
    }
}

/// The `-warp` arguments that start an engine on map `name`, if the name
/// is of the ExMy or MAPnn form.
pub fn warp_args_for(name: &str) -> (r: Option<Vec<String>>)
    ensures
        match r {
            Some(v) => warp_spec(name.spec_bytes()) == Some(v@.map_values(|a: String| a@)),
            None => warp_spec(name.spec_bytes()) is None,
        },
{
    let bytes = name.as_bytes();
    let mut raw: Vec<u8> = Vec::new();
    let mut k: usize = 0;
    while k < bytes.len()
        invariant
            0 <= k <= bytes@.len(),
            raw@ == bytes@.subrange(0, k as int),
        decreases bytes@.len() - k,
    {
        raw.push(bytes[k]);
        k = k + 1;
    }
    assert(raw@ =~= name.spec_bytes());
    let up = to_upper(&raw);
    if up.len() == 4 && up[0] == 69u8 && up[2] == 77u8 {
        if up[1] < 48u8 || up[1] > 57u8 || up[3] < 48u8 || up[3] > 57u8 {
            return None;
        }
        let mut out: Vec<String> = Vec::new();
        out.push("-warp".to_string());
        out.push(decimal_string((up[1] - 48u8) as u32));
        out.push(decimal_string((up[3] - 48u8) as u32));
        assert(out@.map_values(|a: String| a@) =~= seq!["-warp"@, decimal((up@[1] - 48) as nat), decimal((up@[3] - 48) as nat)]);
        return Some(out);
    }
    if up.len() >= 3 && up[0] == 77u8 && up[1] == 65u8 && up[2] == 80u8 {
        match parse_u32(&up, 3) {
            Some(n) => {
                let mut out: Vec<String> = Vec::new();
                out.push("-warp".to_string());
                out.push(decimal_string(n));
                assert(out@.map_values(|a: String| a@) =~= seq!["-warp"@, decimal(n as nat)]);
                return Some(out);
            },
            None => {
                return None;
            },
        }
    }
    None
}

} // verus!
