//! The tracker's configuration and the validation its command line uses.

use vstd::prelude::*;
use vstd::string::*;
use crate::text::all_dec_digits;
use crate::text::dec_val;
use crate::text::is_dec_digit_char;

verus! {

/// The tracker's settings: where to listen, how often the janitor runs,
/// how long a silent peer lives, and where the status page would sit.
pub struct Args {
    pub port: u16,
    pub address: String,
    pub interval: u16,
    pub timeout: u16,
    pub rocket_port: u16,
}

impl Default for Args {
    /// The documented defaults.
    fn default() -> (r: Args)
        ensures
            r.port == 15442,
            r.address@ == "localhost"@,
            r.interval == 60,
            r.timeout == 50,
            r.rocket_port == 15441,
    {
        Args {
            port: 15442,
            address: String::from_str("localhost"),
            interval: 60,
            timeout: 50,
            rocket_port: 15441,
        }
    }
}

/// The texts that denote a sixteen-bit number: an optional leading plus
/// sign, then at least one digit, leading zeros allowed, and a value that
/// fits.
pub open spec fn u16_text(s: Seq<char>) -> bool {
    let body = if s.len() > 0 && s[0] == '+' {
        s.skip(1)
    } else {
        s
    };
    body.len() > 0 && all_dec_digits(body) && dec_val(body) <= 65535
}

fn u16_error(v: &str) -> (r: String)
    ensures
        r@ == seq!['\''] + v@ + "' cannot be parsed to u16."@,
{
    let msg = String::from_str("'").concat(v).concat("' cannot be parsed to u16.");
    proof {
        assert(msg@ =~= seq!['\''] + v@ + "' cannot be parsed to u16."@) by {
            reveal_strlit("'");
        }
    }
    msg
}

/// Validates one command-line value: accepted exactly when it denotes a
/// sixteen-bit number.
pub fn is_u16(v: &str) -> (r: Result<(), String>)
    ensures
        r is Ok <==> u16_text(v@),
        r is Err ==> (r->Err_0)@ == seq!['\''] + v@ + "' cannot be parsed to u16."@,
{
    let n = v.unicode_len();
    let start: usize = if n > 0 && v.get_char(0) == '+' {
        1
    } else {
        0
    };
    let ghost body = if start == 1 {
        v@.skip(1)
    } else {
        v@
    };
    if n == start {
        proof {
            assert(body.len() == 0);
        }
        return Err(u16_error(v));
    }
    // the accumulator tracks the value of the digits read so far, pinned
    // exactly while it fits and known too large once it does not
    let mut acc: u32 = 0;
    let mut i: usize = start;
    while i < n
        invariant
            start <= i <= n,
            n == v@.len(),
            start == 0 || start == 1,
            start == 1 ==> v@.len() > 0 && v@[0] == '+',
            start == 0 ==> v@.len() == 0 || v@[0] != '+',
            body == (if start == 1 {
                v@.skip(1)
            } else {
                v@
            }),
            forall|j: int| 0 <= j < i - start ==> is_dec_digit_char(#[trigger] body[j]),
            acc <= 655359,
            acc <= 65535 ==> acc == dec_val(body.take(i - start)),
            acc > 65535 ==> dec_val(body.take(i - start)) > 65535,
        decreases n - i,
    {
        let c = v.get_char(i);
        if !(c >= '0' && c <= '9') {
            proof {
                assert(body[i - start] == v@[i as int]);
                assert(!is_dec_digit_char(body[i - start]));
            }
            return Err(u16_error(v));
        }
        let d = (c as u32) - 48;
        let ghost k0: int = i - start;
        proof {
            assert(body[k0] == v@[i as int]);
            let q = body.take(k0 + 1);
            assert(q.drop_last() =~= body.take(k0));
            assert(q.last() == body[k0]);
        }
        if acc <= 65535 {
            acc = acc * 10 + d;
        }
        i += 1;
        proof {
            assert(i - start == k0 + 1);
            assert(dec_val(body.take(i - start)) == dec_val(body.take(k0)) * 10
                + crate::text::digit_val(body[k0]));
        }
    }
    proof {
        assert(body.take(n - start) =~= body);
    }
    if acc > 65535 {
        return Err(u16_error(v));
    }
    Ok(())
}

} // verus!
