//! Generated names: client names of spawned units and fully qualified port
//! names, all of the form `prefix` + separator + suffix. A unit spawned for
//! token `t` into slot `i` is named `t_i`; its port `p` is addressed on the
//! audio server as `t_i:p`.

use vstd::prelude::*;
use crate::text::push_char;

verus! {

/// The character for decimal digit `d`.
pub open spec fn dec_digit(d: nat) -> char
    recommends
        d < 10,
{
    ((d + 48) as u8) as char
}

/// Decimal representation of `n`, most significant digit first, no sign and
/// no leading zeros (a single `'0'` for zero).
pub open spec fn dec_repr(n: nat) -> Seq<char>
    decreases n,
{
    if n < 10 {
        seq![dec_digit(n)]
    } else {
        dec_repr(n / 10).push(dec_digit(n % 10))
    }
}

/// Appends the decimal representation of `n` to `s`.
pub fn append_decimal(s: &mut String, n: usize)
    ensures
        final(s)@ == old(s)@ + dec_repr(n as nat),
    decreases n,
{
    if n >= 10 {
        append_decimal(s, n / 10);
        let d: u8 = (n % 10) as u8;
        push_char(s, (48 + d) as char);
        proof {
            assert(s@ =~= old(s)@ + dec_repr(n as nat));
        }
    } else {
        let d: u8 = n as u8;
        push_char(s, (48 + d) as char);
        proof {
            assert(s@ =~= old(s)@ + dec_repr(n as nat));
        }
    }
}

/// The client name a unit gets: the token it was spawned for, `'_'`, and its
/// slot index in decimal.
pub open spec fn spec_unit_name(token: Seq<char>, idx: nat) -> Seq<char> {
    token + seq!['_'] + dec_repr(idx)
}

/// Builds the client name for a unit spawned for `token` into slot `idx`.
pub fn unit_name(token: &str, idx: usize) -> (s: String)
    ensures
        s@ == spec_unit_name(token@, idx as nat),
{
    let mut s = token.to_owned();
    push_char(&mut s, '_');
    append_decimal(&mut s, idx);
    proof {
        assert(s@ =~= spec_unit_name(token@, idx as nat));
    }
    s
}

/// The fully qualified name of port `port` of the client called `name`.
pub open spec fn spec_port_name(name: Seq<char>, port: Seq<char>) -> Seq<char> {
    name + seq![':'] + port
}

/// Builds the fully qualified name of `port` on the client called `name`.
pub fn port_name(name: &str, port: &str) -> (s: String)
    ensures
        s@ == spec_port_name(name@, port@),
{
    let mut s = name.to_owned();
    push_char(&mut s, ':');
    s.append(port);
    proof {
        assert(s@ =~= spec_port_name(name@, port@));
    }
    s
}

/// Builds `count` names `prefix1`, `prefix2`, ... in order, numbered from
/// one, as the audio server numbers the physical playback ports and the
/// safety sink numbers its own ports.
pub fn numbered_names(prefix: &str, count: usize) -> (r: Vec<String>)
    ensures
        r@.len() == count,
        forall|i: int| 0 <= i < count ==> r@[i]@ == prefix@ + dec_repr((i + 1) as nat),
{
    let mut r: Vec<String> = Vec::new();
    let mut i: usize = 0;
    while i < count
        invariant
            0 <= i <= count,
            r@.len() == i,
            forall|j: int| 0 <= j < i ==> r@[j]@ == prefix@ + dec_repr((j + 1) as nat),
        decreases count - i,
    {
        let mut s = prefix.to_owned();
        append_decimal(&mut s, i + 1);
        r.push(s);
        i = i + 1;
    }
    r
}

} // verus!
