//! Interfaces and endpoints from a raw configuration descriptor, as nusb
//! parses them.
use vstd::prelude::*;
use crate::usb::{Endpoint, Interface, InterfaceView};

verus! {

/// What nusb's `ConfigurationDescriptor` makes of a buffer: `None` when it
/// refuses the buffer; else the (number, alternate setting, class, subclass,
/// protocol) of each interface alternate setting in order, and the (setting
/// index, address, attributes, max packet size, interval) of each endpoint
/// in order.
pub uninterp spec fn nusb_alt_settings(bytes: Seq<u8>) -> Option<
    (Seq<(u8, u8, u8, u8, u8)>, Seq<(usize, u8, u8, usize, u8)>),
>;

/// `nusb::descriptors::ConfigurationDescriptor::new(bytes)`, then its
/// `interface_alt_settings()` and each one's `endpoints()`, read field by
/// field. The contract claims that the result depends on the bytes alone.
#[verifier::external_body]
fn alt_settings(bytes: &[u8]) -> (r: Option<(Vec<(u8, u8, u8, u8, u8)>, Vec<(usize, u8, u8, usize, u8)>)>)
    ensures
        r.deep_view() == nusb_alt_settings(bytes@),
{
    let cfg = nusb::descriptors::ConfigurationDescriptor::new(bytes)?;
    let (mut alts, mut eps) = (Vec::new(), Vec::new());
    for (i, a) in cfg.interface_alt_settings().enumerate() {
        alts.push((a.interface_number(), a.alternate_setting(), a.class(), a.subclass(), a.protocol()));
        eps.extend(a.endpoints().map(|e| (i, e.address(), e.attributes(), e.max_packet_size(), e.interval())));
    }
    Some((alts, eps))
}

/// The endpoint that a raw endpoint record describes: direction from bit 7
/// of the address, transfer type from the low two bits of the attributes.
pub open spec fn endpoint_of(e: (usize, u8, u8, usize, u8)) -> Endpoint {
    Endpoint {
        address: e.1,
        input: e.1 & 0x80 != 0,
        transfer: e.2 & 0x03,
        max_packet: e.3 as u16,
        interval: e.4,
    }
}

/// The endpoints, in order, of alternate setting `i`.
pub open spec fn endpoints_of(eps: Seq<(usize, u8, u8, usize, u8)>, i: int) -> Seq<Endpoint>
    decreases eps.len(),
{
    if eps.len() == 0 {
        seq![]
    } else {
        let rest = endpoints_of(eps.drop_last(), i);
        if eps.last().0 == i {
            rest.push(endpoint_of(eps.last()))
        } else {
            rest
        }
    }
}

/// The interfaces that parsed settings describe; none when parsing failed.
pub open spec fn interfaces_of(
    raw: Option<(Seq<(u8, u8, u8, u8, u8)>, Seq<(usize, u8, u8, usize, u8)>)>,
) -> Seq<InterfaceView> {
    match raw {
        None => seq![],
        Some((alts, eps)) => Seq::new(
            alts.len(),
            |i: int|
                InterfaceView {
                    number: alts[i].0,
                    alt: alts[i].1,
                    class: alts[i].2,
                    subclass: alts[i].3,
                    protocol: alts[i].4,
                    endpoints: endpoints_of(eps, i),
                },
        ),
    }
}

/// The configuration descriptor in a blob: a Linux sysfs `descriptors`
/// blob leads with the 18-byte device descriptor, which is skipped.
pub open spec fn config_bytes_of(blob: Seq<u8>) -> Seq<u8> {
    if blob.len() >= 2 && blob[0] == 18 && blob[1] == 1 {
        blob.skip(18)
    } else {
        blob
    }
}

/// A blob that starts like a device descriptor is long enough to hold one.
pub open spec fn blob_ok(blob: Seq<u8>) -> bool {
    blob.len() >= 2 && blob[0] == 18 && blob[1] == 1 ==> blob.len() >= 18
}

fn endpoints_for(eps: &Vec<(usize, u8, u8, usize, u8)>, i: usize) -> (r: Vec<Endpoint>)
    ensures
        r@ == endpoints_of(eps@, i as int),
{
    let mut r: Vec<Endpoint> = Vec::new();
    let mut k: usize = 0;
    while k < eps.len()
        invariant
            k <= eps.len(),
            r@ == endpoints_of(eps@.take(k as int), i as int),
        decreases eps.len() - k,
    {
        assert(eps@.take(k + 1).drop_last() =~= eps@.take(k as int));
        let e = eps[k];
        if e.0 == i {
            r.push(
                Endpoint {
                    address: e.1,
                    input: e.1 & 0x80 != 0,
                    transfer: e.2 & 0x03,
                    max_packet: e.3 as u16,
                    interval: e.4,
                },
            );
        }
        k = k + 1;
    }
    assert(eps@.take(eps.len() as int) =~= eps@);
    r
}

/// The interfaces that the parsed alternate settings describe: each setting
/// with the endpoints recorded for it; none when parsing failed.
pub fn interfaces_from(raw: Option<(Vec<(u8, u8, u8, u8, u8)>, Vec<(usize, u8, u8, usize, u8)>)>) -> (r:
    Vec<Interface>)
    ensures
        r@.map_values(|i: Interface| i@) == interfaces_of(raw.deep_view()),
{
    let ghost parsed = raw.deep_view();
    let (alts, eps) = match raw {
        Some(p) => p,
        None => {
            let r: Vec<Interface> = Vec::new();
            assert(r@.map_values(|i: Interface| i@) =~= interfaces_of(parsed));
            return r;
        },
    };
    assert(parsed == Some((alts@, eps@)));
    let mut r: Vec<Interface> = Vec::new();
    let mut i: usize = 0;
    while i < alts.len()
        invariant
            parsed == Some((alts@, eps@)),
            i <= alts.len(),
            r.len() == i,
            r@.map_values(|x: Interface| x@) == interfaces_of(parsed).take(i as int),
        decreases alts.len() - i,
    {
        let a = alts[i];
        let endpoints = endpoints_for(&eps, i);
        let ghost old_r = r@;
        r.push(
            Interface {
                number: a.0,
                alt: a.1,
                class: a.2,
                subclass: a.3,
                protocol: a.4,
                endpoints,
            },
        );
        proof {
            let full = interfaces_of(parsed);
            assert(full[i as int] == r@[i as int]@);
            assert(r@.map_values(|x: Interface| x@) =~= old_r.map_values(|x: Interface| x@).push(
                r@[i as int]@,
            ));
            assert(full.take(i + 1) =~= full.take(i as int).push(full[i as int]));
        }
        i = i + 1;
    }
    assert(interfaces_of(parsed).take(alts.len() as int) =~= interfaces_of(parsed));
    r
}

/// Parse interfaces + endpoints from a raw config-descriptor buffer. Accepts
/// a bare configuration descriptor or a Linux sysfs `descriptors` blob that
/// leads with the 18-byte device descriptor. Reads only the first
/// configuration.
pub fn parse_interfaces(blob: &[u8]) -> (r: Vec<Interface>)
    requires
        blob_ok(blob@),
    ensures
        r@.map_values(|i: Interface| i@) == interfaces_of(nusb_alt_settings(config_bytes_of(blob@))),
{
    let skip = blob.len() >= 2 && blob[0] == 18 && blob[1] == 1;
    let raw = if skip {
        let mut rest: Vec<u8> = Vec::new();
        let mut k: usize = 18;
        while k < blob.len()
            invariant
                18 <= k <= blob.len(),
                rest@ == blob@.subrange(18, k as int),
            decreases blob.len() - k,
        {
            rest.push(blob[k]);
            k = k + 1;
            assert(rest@ =~= blob@.subrange(18, k as int));
        }
        assert(rest@ =~= config_bytes_of(blob@));
        alt_settings(rest.as_slice())
    } else {
        alt_settings(blob)
    };
    interfaces_from(raw)
}

} // verus!
