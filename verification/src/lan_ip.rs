//! Which address of this machine a peer on the local network can reach.
use crate::decimal::{decimal, decimal_string};
use crate::text::{after, before, chars_of, law_cut_at, starts_with};
use vstd::prelude::*;

verus! {

/// What [`str::to_lowercase`] makes of a text.
pub uninterp spec fn lower_text(text: Seq<char>) -> Seq<char>;

/// [`str::to_lowercase`]: a text in lower case.
#[verifier::external_body]
fn to_lowercase(text: &str) -> (r: String)
    ensures
        r@ == lower_text(text@),
{
    text.to_lowercase()
}

/// An IPv4 address.
#[derive(Clone, Copy, PartialEq, Eq, Structural)]
pub struct Ipv4 {
    /// Its first number.
    pub a: u8,
    /// Its second number.
    pub b: u8,
    /// Its third number.
    pub c: u8,
    /// Its fourth number.
    pub d: u8,
}

/// The text of an IPv4 address.
pub open spec fn ipv4_text(ip: Ipv4) -> Seq<char> {
    decimal(ip.a as nat) + "."@ + decimal(ip.b as nat) + "."@ + decimal(ip.c as nat) + "."@ + decimal(
        ip.d as nat,
    )
}

/// The text of an IPv4 address.
pub fn ipv4_string(ip: Ipv4) -> (r: String)
    ensures
        r@ == ipv4_text(ip),
{
    let mut out = decimal_string(ip.a as u64);
    out.append(".");
    out.append(decimal_string(ip.b as u64).as_str());
    out.append(".");
    out.append(decimal_string(ip.c as u64).as_str());
    out.append(".");
    out.append(decimal_string(ip.d as u64).as_str());
    out
}

/// An IPv4 address of an interface, with its netmask.
#[derive(Clone, Copy)]
pub struct Ipv4Addr {
    /// The address.
    pub ip: Ipv4,
    /// The netmask.
    pub netmask: Ipv4,
}

/// A network interface with one of its addresses.
pub struct Interface {
    /// The name.
    pub name: String,
    /// The address, where it is an IPv4 address.
    pub addr: Option<Ipv4Addr>,
}

/// Whether an interface name in lower case is that of a virtual interface.
pub open spec fn is_virtual(name: Seq<char>) -> bool {
    ||| "tun"@.is_prefix_of(name)
    ||| "tap"@.is_prefix_of(name)
    ||| "docker"@.is_prefix_of(name)
    ||| "veth"@.is_prefix_of(name)
    ||| "br-"@.is_prefix_of(name)
    ||| "wg"@.is_prefix_of(name)
    ||| "ppp"@.is_prefix_of(name)
    ||| "utun"@.is_prefix_of(name)
    ||| "vir"@.is_prefix_of(name)
    ||| "vgate"@.is_prefix_of(name)
}

/// Whether an interface name in lower case is that of an interface to a local network.
pub open spec fn is_local(name: Seq<char>) -> bool {
    ||| "wlan"@.is_prefix_of(name)
    ||| "eth"@.is_prefix_of(name)
    ||| "en"@.is_prefix_of(name)
    ||| "usb"@.is_prefix_of(name)
}

/// Whether peers can reach an address: it is neither this machine's own, nor unset, nor link-local,
/// nor one end of a point-to-point link.
pub open spec fn is_reachable(addr: Ipv4Addr) -> bool {
    &&& addr.ip.a != 127
    &&& addr.ip != (Ipv4 { a: 0, b: 0, c: 0, d: 0 })
    &&& !(addr.ip.a == 169 && addr.ip.b == 254)
    &&& addr.netmask != (Ipv4 { a: 255, b: 255, c: 255, d: 255 })
}

/// The address of an interface that peers can reach, given its name in lower case.
pub open spec fn candidate(lower: Seq<char>, addr: Option<Ipv4Addr>) -> Option<Ipv4> {
    if !is_virtual(lower) && addr is Some && is_reachable(addr->0) {
        Some(addr->0.ip)
    } else {
        None
    }
}

/// The first address that peers can reach, of all interfaces or of those to a local network.
pub open spec fn first_candidate(interfaces: Seq<Interface>, local_only: bool) -> Option<Ipv4>
    decreases interfaces.len(),
{
    if interfaces.len() == 0 {
        None
    } else {
        let lower = lower_text(interfaces[0].name@);
        let ip = candidate(lower, interfaces[0].addr);
        if ip is Some && (!local_only || is_local(lower)) {
            ip
        } else {
            first_candidate(interfaces.drop_first(), local_only)
        }
    }
}

/// The address that is shown to peers: one of an interface to a local network, or else one of any
/// interface that is not virtual.
pub open spec fn best_candidate(interfaces: Seq<Interface>) -> Option<Ipv4> {
    match first_candidate(interfaces, true) {
        Some(ip) => Some(ip),
        None => first_candidate(interfaces, false),
    }
}

/// Whether an interface name in lower case is that of a virtual interface.
pub fn virtual_name(lower: &str) -> (r: bool)
    ensures
        r == is_virtual(lower@),
{
    let name = chars_of(lower);
    let cs = name.as_slice();
    starts_with(cs, "tun") || starts_with(cs, "tap") || starts_with(cs, "docker") || starts_with(
        cs,
        "veth",
    ) || starts_with(cs, "br-") || starts_with(cs, "wg") || starts_with(cs, "ppp") || starts_with(
        cs,
        "utun",
    ) || starts_with(cs, "vir") || starts_with(cs, "vgate")
}

/// Whether an interface name in lower case is that of an interface to a local network.
pub fn local_name(lower: &str) -> (r: bool)
    ensures
        r == is_local(lower@),
{
    let name = chars_of(lower);
    let cs = name.as_slice();
    starts_with(cs, "wlan") || starts_with(cs, "eth") || starts_with(cs, "en") || starts_with(
        cs,
        "usb",
    )
}

/// The address of an interface that peers can reach, given its name in lower case.
pub fn lan_ip_candidate(lower: &str, addr: Option<Ipv4Addr>) -> (r: Option<Ipv4>)
    ensures
        r == candidate(lower@, addr),
{
    if virtual_name(lower) {
        return None;
    }
    match addr {
        None => None,
        Some(v4) => {
            let unset = Ipv4 { a: 0, b: 0, c: 0, d: 0 };
            let all = Ipv4 { a: 255, b: 255, c: 255, d: 255 };
            if v4.ip.a == 127 || v4.ip == unset || (v4.ip.a == 169 && v4.ip.b == 254) || v4.netmask
                == all {
                None
            } else {
                Some(v4.ip)
            }
        },
    }
}

fn find_candidate(interfaces: &Vec<Interface>, local_only: bool) -> (r: Option<Ipv4>)
    ensures
        r == first_candidate(interfaces@, local_only),
{
    let mut i: usize = 0;
    assert(interfaces@.skip(0) =~= interfaces@);
    while i < interfaces.len()
        invariant
            0 <= i <= interfaces@.len(),
            first_candidate(interfaces@, local_only) == first_candidate(
                interfaces@.skip(i as int),
                local_only,
            ),
        decreases interfaces@.len() - i,
    {
        let ghost rest = interfaces@.skip(i as int);
        assert(rest[0] == interfaces@[i as int]);
        assert(rest.drop_first() =~= interfaces@.skip(i + 1));
        let lower = to_lowercase(interfaces[i].name.as_str());
        if !local_only || local_name(lower.as_str()) {
            if let Some(ip) = lan_ip_candidate(lower.as_str(), interfaces[i].addr) {
                return Some(ip);
            }
        }
        i = i + 1;
    }
    None
}

/// The text of the address that is shown to peers, where an interface has one.
pub fn detect_lan_ip(interfaces: Vec<Interface>) -> (r: Option<String>)
    ensures
        r is Some <==> best_candidate(interfaces@) is Some,
        r matches Some(text) ==> text@ == ipv4_text(best_candidate(interfaces@)->0),
{
    match find_candidate(&interfaces, true) {
        Some(ip) => Some(ipv4_string(ip)),
        None => match find_candidate(&interfaces, false) {
            Some(ip) => Some(ipv4_string(ip)),
            None => None,
        },
    }
}

/// An address that is shown to peers belongs to an interface that is not virtual, and can be
/// reached.
pub proof fn law_shown_address_is_reachable(interfaces: Seq<Interface>)
    ensures
        best_candidate(interfaces) matches Some(ip) ==> exists|i: int|
            0 <= i < interfaces.len() && !is_virtual(lower_text((#[trigger] interfaces[i]).name@))
                && interfaces[i].addr is Some && is_reachable(interfaces[i].addr->0)
                && interfaces[i].addr->0.ip == ip,
{
    lemma_first_candidate(interfaces, true);
    lemma_first_candidate(interfaces, false);
}

proof fn lemma_first_candidate(interfaces: Seq<Interface>, local_only: bool)
    ensures
        first_candidate(interfaces, local_only) matches Some(ip) ==> exists|i: int|
            0 <= i < interfaces.len() && !is_virtual(lower_text((#[trigger] interfaces[i]).name@))
                && interfaces[i].addr is Some && is_reachable(interfaces[i].addr->0)
                && interfaces[i].addr->0.ip == ip,
    decreases interfaces.len(),
{
    if interfaces.len() > 0 {
        let rest = interfaces.drop_first();
        lemma_first_candidate(rest, local_only);
        if let Some(ip) = first_candidate(rest, local_only) {
            let i = choose|i: int|
                0 <= i < rest.len() && !is_virtual(lower_text((#[trigger] rest[i]).name@))
                    && rest[i].addr is Some && is_reachable(rest[i].addr->0) && rest[i].addr->0.ip
                    == ip;
            assert(interfaces[i + 1] == rest[i]);
        }
        let lower = lower_text(interfaces[0].name@);
        if candidate(lower, interfaces[0].addr) is Some {
            assert(interfaces[0].addr->0.ip == candidate(lower, interfaces[0].addr)->0);
        }
    }
}

/// Which interfaces are virtual goes by how their names begin, and so does which are of the local
/// network.
pub proof fn law_names_of_interfaces(rest: Seq<char>)
    ensures
        is_virtual("tun"@ + rest) && is_virtual("tap"@ + rest) && is_virtual("docker"@ + rest),
        is_virtual("veth"@ + rest) && is_virtual("br-"@ + rest) && is_virtual("wg"@ + rest),
        is_virtual("ppp"@ + rest) && is_virtual("utun"@ + rest) && is_virtual("vir"@ + rest),
        is_virtual("vgate"@ + rest),
        is_local("wlan"@ + rest) && is_local("eth"@ + rest) && is_local("en"@ + rest),
        is_local("usb"@ + rest),
{
    lemma_begins("tun"@, rest);
    lemma_begins("tap"@, rest);
    lemma_begins("docker"@, rest);
    lemma_begins("veth"@, rest);
    lemma_begins("br-"@, rest);
    lemma_begins("wg"@, rest);
    lemma_begins("ppp"@, rest);
    lemma_begins("utun"@, rest);
    lemma_begins("vir"@, rest);
    lemma_begins("vgate"@, rest);
    lemma_begins("wlan"@, rest);
    lemma_begins("eth"@, rest);
    lemma_begins("en"@, rest);
    lemma_begins("usb"@, rest);
}

proof fn lemma_begins(head: Seq<char>, rest: Seq<char>)
    ensures
        head.is_prefix_of(head + rest),
{
    assert(head =~= (head + rest).subrange(0, head.len() as int));
}

/// No interface of the local network is virtual, and neither is one whose name begins with another
/// letter than those of the virtual ones.
pub proof fn law_local_is_not_virtual(name: Seq<char>)
    ensures
        is_local(name) ==> !is_virtual(name),
        name.len() > 0 && !"tdvbwpu"@.contains(name[0]) ==> !is_virtual(name),
        name.len() > 0 && !"weu"@.contains(name[0]) ==> !is_local(name),
        name.len() < 2 ==> !is_virtual(name) && !is_local(name),
{
    reveal_strlit("tun");
    reveal_strlit("tap");
    reveal_strlit("docker");
    reveal_strlit("veth");
    reveal_strlit("br-");
    reveal_strlit("wg");
    reveal_strlit("ppp");
    reveal_strlit("utun");
    reveal_strlit("vir");
    reveal_strlit("vgate");
    reveal_strlit("wlan");
    reveal_strlit("eth");
    reveal_strlit("en");
    reveal_strlit("usb");
    reveal_strlit("tdvbwpu");
    reveal_strlit("weu");
    let v = "tdvbwpu"@;
    let l = "weu"@;
    assert(v[0] == 't' && v[1] == 'd' && v[2] == 'v' && v[3] == 'b' && v[4] == 'w' && v[5] == 'p'
        && v[6] == 'u');
    assert(l[0] == 'w' && l[1] == 'e' && l[2] == 'u');
    if is_virtual(name) {
        let two = name.subrange(0, 2);
        assert(name[0] == two[0] && name[1] == two[1]);
    }
    if is_local(name) {
        let two = name.subrange(0, 2);
        assert(name[0] == two[0] && name[1] == two[1]);
    }
}

/// An address is not reachable from the network where it is the machine's own, none at all or one
/// that was made up for the link, or where its network holds nothing else; every other one is.
pub proof fn law_reachable_addresses(ip: Ipv4, netmask: Ipv4)
    ensures
        ({
            let own = ip.a == 127;
            let none = ip.a == 0 && ip.b == 0 && ip.c == 0 && ip.d == 0;
            let link = ip.a == 169 && ip.b == 254;
            let alone = netmask.a == 255 && netmask.b == 255 && netmask.c == 255 && netmask.d
                == 255;
            is_reachable(Ipv4Addr { ip, netmask }) <==> !own && !none && !link && !alone
        }),
{
}

/// The address that is shown is the first one of the local network that can be shown, or, without
/// one, the first that can be shown at all: nothing before it could be.
pub proof fn law_first_fit_is_shown(interfaces: Seq<Interface>)
    ensures
        best_candidate(interfaces) is None ==> forall|i: int|
            0 <= i < interfaces.len() ==> candidate(
                lower_text((#[trigger] interfaces[i]).name@),
                interfaces[i].addr,
            ) is None,
        best_candidate(interfaces) matches Some(ip) ==> exists|k: int|
            {
                &&& 0 <= k < interfaces.len()
                &&& candidate(
                    lower_text((#[trigger] interfaces[k]).name@),
                    interfaces[k].addr,
                ) == Some(ip)
                &&& forall|i: int|
                    0 <= i < k && candidate(
                        lower_text((#[trigger] interfaces[i]).name@),
                        interfaces[i].addr,
                    ) is Some ==> is_local(lower_text(interfaces[k].name@)) && !is_local(
                        lower_text(interfaces[i].name@),
                    )
                &&& !is_local(lower_text(interfaces[k].name@)) ==> forall|i: int|
                    0 <= i < interfaces.len() && candidate(
                        lower_text((#[trigger] interfaces[i]).name@),
                        interfaces[i].addr,
                    ) is Some ==> !is_local(lower_text(interfaces[i].name@))
            },
{
    let a = lemma_first_fit(interfaces, true);
    let b = lemma_first_fit(interfaces, false);
    if best_candidate(interfaces) is Some {
        if first_candidate(interfaces, true) is Some {
            assert(fits_at(interfaces, true, a));
            assert(candidate(lower_text(interfaces[a].name@), interfaces[a].addr)
                == best_candidate(interfaces));
        } else {
            assert(candidate(lower_text(interfaces[b].name@), interfaces[b].addr)
                == best_candidate(interfaces));
            assert forall|i: int|
                0 <= i < interfaces.len() && candidate(
                    lower_text((#[trigger] interfaces[i]).name@),
                    interfaces[i].addr,
                ) is Some implies !is_local(lower_text(interfaces[i].name@)) by {
                assert(!fits_at(interfaces, true, i));
            }
            assert forall|i: int|
                0 <= i < b && candidate(
                    lower_text((#[trigger] interfaces[i]).name@),
                    interfaces[i].addr,
                ) is Some implies is_local(lower_text(interfaces[b].name@)) && !is_local(
                lower_text(interfaces[i].name@),
            ) by {
                assert(!fits_at(interfaces, false, i));
            }
        }
        if first_candidate(interfaces, true) is Some {
            assert forall|i: int|
                0 <= i < a && candidate(
                    lower_text((#[trigger] interfaces[i]).name@),
                    interfaces[i].addr,
                ) is Some implies is_local(lower_text(interfaces[a].name@)) && !is_local(
                lower_text(interfaces[i].name@),
            ) by {
                assert(!fits_at(interfaces, true, i));
            }
        }
    } else {
        assert forall|i: int| 0 <= i < interfaces.len() implies candidate(
            lower_text((#[trigger] interfaces[i]).name@),
            interfaces[i].addr,
        ) is None by {
            assert(!fits_at(interfaces, false, i));
        }
    }
}

/// Whether the address of an interface can be shown, and the interface is one of those looked for.
spec fn fits_at(interfaces: Seq<Interface>, local_only: bool, i: int) -> bool {
    let lower = lower_text(interfaces[i].name@);
    candidate(lower, interfaces[i].addr) is Some && (!local_only || is_local(lower))
}

proof fn lemma_first_fit(interfaces: Seq<Interface>, local_only: bool) -> (k: int)
    ensures
        0 <= k <= interfaces.len(),
        forall|i: int| 0 <= i < k ==> !fits_at(interfaces, local_only, i),
        k < interfaces.len() ==> fits_at(interfaces, local_only, k) && first_candidate(
            interfaces,
            local_only,
        ) == candidate(lower_text(interfaces[k].name@), interfaces[k].addr),
        first_candidate(interfaces, local_only) is Some <==> k < interfaces.len(),
    decreases interfaces.len(),
{
    if interfaces.len() == 0 {
        0
    } else if fits_at(interfaces, local_only, 0) {
        0
    } else {
        let rest = interfaces.drop_first();
        let k = lemma_first_fit(rest, local_only);
        assert forall|i: int| 0 <= i < k + 1 implies !fits_at(interfaces, local_only, i) by {
            if i > 0 {
                assert(interfaces[i] == rest[i - 1]);
                assert(!fits_at(rest, local_only, i - 1));
            }
        }
        if k < rest.len() {
            assert(interfaces[k + 1] == rest[k]);
        }
        k + 1
    }
}

/// The text of an address is its four numbers, with points between them.
pub proof fn law_address_text(ip: Ipv4)
    ensures
        ({
            let text = ipv4_text(ip);
            &&& before(text, '.') == decimal(ip.a as nat)
            &&& before(after(text, '.'), '.') == decimal(ip.b as nat)
            &&& before(after(after(text, '.'), '.'), '.') == decimal(ip.c as nat)
            &&& after(after(after(text, '.'), '.'), '.') == decimal(ip.d as nat)
        }),
{
    reveal_strlit(".");
    let d = decimal(ip.d as nat);
    let cd = decimal(ip.c as nat).push('.') + d;
    let bcd = decimal(ip.b as nat).push('.') + cd;
    assert(ipv4_text(ip) =~= decimal(ip.a as nat).push('.') + bcd);
    lemma_no_point(ip.a as nat);
    lemma_no_point(ip.b as nat);
    lemma_no_point(ip.c as nat);
    law_cut_at(decimal(ip.a as nat), '.', bcd);
    law_cut_at(decimal(ip.b as nat), '.', cd);
    law_cut_at(decimal(ip.c as nat), '.', d);
}

proof fn lemma_no_point(n: nat)
    ensures
        !decimal(n).contains('.'),
    decreases n,
{
    if n >= 10 {
        lemma_no_point(n / 10);
        let s = decimal(n);
        assert forall|i: int| 0 <= i < s.len() implies s[i] != '.' by {
            if i < s.len() - 1 {
                assert(decimal(n / 10).contains(decimal(n / 10)[i]));
            }
        }
    }
}

/// Nothing else makes an interface virtual, or one of the local network, than one of these beginnings.
pub proof fn law_no_other_names(name: Seq<char>)
    ensures
        is_virtual(name) ==> exists|n: int|
            0 <= n <= name.len() && seq![
                "tun"@,
                "tap"@,
                "docker"@,
                "veth"@,
                "br-"@,
                "wg"@,
                "ppp"@,
                "utun"@,
                "vir"@,
                "vgate"@,
            ].contains(#[trigger] name.take(n)),
        is_local(name) ==> exists|n: int|
            0 <= n <= name.len() && seq!["wlan"@, "eth"@, "en"@, "usb"@].contains(
                #[trigger] name.take(n),
            ),
{
    let v = seq![
        "tun"@,
        "tap"@,
        "docker"@,
        "veth"@,
        "br-"@,
        "wg"@,
        "ppp"@,
        "utun"@,
        "vir"@,
        "vgate"@,
    ];
    let l = seq!["wlan"@, "eth"@, "en"@, "usb"@];
    if is_virtual(name) {
        let i: int = if v[0].is_prefix_of(name) {
            0
        } else if v[1].is_prefix_of(name) {
            1
        } else if v[2].is_prefix_of(name) {
            2
        } else if v[3].is_prefix_of(name) {
            3
        } else if v[4].is_prefix_of(name) {
            4
        } else if v[5].is_prefix_of(name) {
            5
        } else if v[6].is_prefix_of(name) {
            6
        } else if v[7].is_prefix_of(name) {
            7
        } else if v[8].is_prefix_of(name) {
            8
        } else {
            9
        };
        assert(v[9] == "vgate"@);
        assert(name.take(v[i].len() as int) =~= v[i]);
        assert(v.contains(name.take(v[i].len() as int)));
    }
    if is_local(name) {
        let i: int = if l[0].is_prefix_of(name) {
            0
        } else if l[1].is_prefix_of(name) {
            1
        } else if l[2].is_prefix_of(name) {
            2
        } else {
            3
        };
        assert(l[3] == "usb"@);
        assert(name.take(l[i].len() as int) =~= l[i]);
        assert(l.contains(name.take(l[i].len() as int)));
    }
}

/// An address can be shown exactly where its interface is not virtual and it can be reached; what is
/// shown is the address itself.
pub proof fn law_what_can_be_shown(lower: Seq<char>, addr: Ipv4Addr)
    ensures
        candidate(lower, None) is None,
        candidate(lower, Some(addr)) is Some <==> !is_virtual(lower) && is_reachable(addr),
        candidate(lower, Some(addr)) matches Some(ip) ==> ip == addr.ip,
{
}

} // verus!
