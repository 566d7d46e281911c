//! The command line of the server.
use crate::decimal::{
    decimal, decimal_bytes, decimal_string, is_digit, law_decimal_form, law_decimal_round_trip,
    lemma_decimal_text, parse_uint, parsed_uint,
};
use vstd::prelude::*;
use vstd::utf8::*;

verus! {

/// The port where none is given.
pub const DEFAULT_PORT: u16 = 8000;

/// The port that an argument gives, where it is one.
pub open spec fn port_of(arg: Seq<char>) -> Option<nat> {
    parsed_uint(encode_utf8(arg), u16::MAX as nat)
}

/// What the arguments say: the last that is a port is the port, and the last that is not is the
/// directory.
pub open spec fn served(args: Seq<String>) -> (u16, Seq<char>)
    decreases args.len(),
{
    if args.len() == 0 {
        (DEFAULT_PORT, "."@)
    } else {
        let (port, dir) = served(args.drop_last());
        match port_of(args.last()@) {
            Some(n) => (n as u16, dir),
            None => (port, args.last()@),
        }
    }
}

/// The port and the directory of the server.
pub fn parse_args(args: Vec<String>) -> (r: (u16, String))
    ensures
        (r.0, r.1@) == served(args@),
{
    let mut port: u16 = DEFAULT_PORT;
    let mut dir = ".".to_string();
    let mut i: usize = 0;
    assert(args@.take(0) =~= Seq::<String>::empty());
    while i < args.len()
        invariant
            0 <= i <= args@.len(),
            (port, dir@) == served(args@.take(i as int)),
        decreases args@.len() - i,
    {
        let ghost so_far = args@.take(i + 1);
        assert(so_far.drop_last() =~= args@.take(i as int));
        assert(so_far.last() == args@[i as int]);
        let arg = args[i].as_str();
        match parse_uint(arg.as_bytes(), u16::MAX as u64) {
            Some(parsed) => {
                port = parsed as u16;
            },
            None => {
                dir = arg.to_string();
            },
        }
        i = i + 1;
    }
    assert(args@.take(args@.len() as int) =~= args@);
    (port, dir)
}

/// The address that the server listens on.
pub fn listen_addr(port: u16) -> (r: String)
    ensures
        r@ == "0.0.0.0:"@ + decimal(port as nat),
{
    let mut out = "0.0.0.0:".to_string();
    out.append(decimal_string(port as u64).as_str());
    out
}

/// The order of a port and a directory does not matter.
pub proof fn law_order_does_not_matter(a: String, b: String)
    requires
        port_of(a@) is Some,
        port_of(b@) is None,
    ensures
        served(seq![a, b]) == served(seq![b, a]),
        served(seq![a, b]) == (port_of(a@)->0 as u16, b@),
{
    reveal_with_fuel(served, 3);
    assert(seq![a, b].drop_last() =~= seq![a]);
    assert(seq![b, a].drop_last() =~= seq![b]);
    assert(seq![a].drop_last() =~= Seq::<String>::empty());
    assert(seq![b].drop_last() =~= Seq::<String>::empty());
}

/// Of several ports, and of several directories, the last one counts; each leaves the other as it was.
pub proof fn law_last_one_counts(args: Seq<String>, arg: String)
    ensures
        port_of(arg@) matches Some(n) ==> served(args.push(arg)).0 == n && served(args.push(arg)).1
            == served(args).1,
        port_of(arg@) is None ==> served(args.push(arg)).0 == served(args).0 && served(
            args.push(arg),
        ).1 == arg@,
        served(Seq::<String>::empty()) == (8000u16, "."@),
{
    assert(args.push(arg).drop_last() =~= args);
}

/// A port is a number that a port can be.
pub proof fn law_ports_are_numbers(n: nat)
    ensures
        n <= 65_535 ==> port_of(decimal(n)) == Some(n),
        n > 65_535 ==> port_of(decimal(n)) is None,
{
    lemma_decimal_text(n);
    law_decimal_form(n);
    if n <= 65_535 {
        law_decimal_round_trip(n, u16::MAX as nat);
    } else {
        assert(is_digit(decimal_bytes(n)[0]));
    }
}

} // verus!
