use vstd::prelude::*;

use crate::endpoint::Endpoint;
use crate::service_discovery::{Proxy, Record};
use crate::text::same_text;

verus! {

/// The human-readable name registered for a device id.
pub open spec fn label_of(key: Seq<char>) -> Option<Seq<char>> {
    if key == "ap"@ {
        Some("Ventilation system"@)
    } else if key == "bac"@ {
        Some("Bedroom air conditioner"@)
    } else if key == "bbl"@ {
        Some("Bedroom lights over the bed"@)
    } else if key == "bbsw"@ {
        Some("Bedroom light switch over the bed"@)
    } else if key == "br"@ {
        Some("Bedroom shades"@)
    } else if key == "bwl"@ {
        Some("Bedroom lights by the wardrobe"@)
    } else if key == "bwsw"@ {
        Some("Bedroom light switch by the wardrobe"@)
    } else if key == "dac"@ {
        Some("Dining room air conditioner"@)
    } else if key == "dr1"@ {
        Some("Dining room left shades"@)
    } else if key == "dr2"@ {
        Some("Dining room center shades"@)
    } else if key == "dr3"@ {
        Some("Dining room right shades"@)
    } else if key == "drl"@ {
        Some("Dining room lights"@)
    } else if key == "drs"@ {
        Some("Dining room light switch"@)
    } else if key == "gbr"@ {
        Some("Guest bathroom temperature controller"@)
    } else if key == "gbrfh"@ {
        Some("Guest bathroom floor heating"@)
    } else if key == "hb"@ {
        Some("Guest bathroom temperature valve"@)
    } else if key == "k"@ {
        Some("Kitchen shades"@)
    } else if key == "kfh"@ {
        Some("Kitchen floor heating"@)
    } else if key == "kt"@ {
        Some("Kitchen temperature controller"@)
    } else if key == "lac"@ {
        Some("Living room air conditioner"@)
    } else if key == "ll"@ {
        Some("Living room lights"@)
    } else if key == "lr"@ {
        Some("Living room shades"@)
    } else if key == "ls"@ {
        Some("Living room light switch"@)
    } else if key == "oac"@ {
        Some("Office air conditioner"@)
    } else if key == "prx"@ {
        Some("Proxy"@)
    } else {
        None
    }
}

/// The human-readable name registered for a device id, if any.
pub fn get_service_name(key: &str) -> (r: Option<&'static str>)
    ensures
        match r {
            Some(s) => label_of(key@) == Some(s@),
            None => label_of(key@) is None,
        },
{
    if same_text(key, "ap") {
        return Some("Ventilation system");
    }
    if same_text(key, "bac") {
        return Some("Bedroom air conditioner");
    }
    if same_text(key, "bbl") {
        return Some("Bedroom lights over the bed");
    }
    if same_text(key, "bbsw") {
        return Some("Bedroom light switch over the bed");
    }
    if same_text(key, "br") {
        return Some("Bedroom shades");
    }
    if same_text(key, "bwl") {
        return Some("Bedroom lights by the wardrobe");
    }
    if same_text(key, "bwsw") {
        return Some("Bedroom light switch by the wardrobe");
    }
    if same_text(key, "dac") {
        return Some("Dining room air conditioner");
    }
    if same_text(key, "dr1") {
        return Some("Dining room left shades");
    }
    if same_text(key, "dr2") {
        return Some("Dining room center shades");
    }
    if same_text(key, "dr3") {
        return Some("Dining room right shades");
    }
    if same_text(key, "drl") {
        return Some("Dining room lights");
    }
    if same_text(key, "drs") {
        return Some("Dining room light switch");
    }
    if same_text(key, "gbr") {
        return Some("Guest bathroom temperature controller");
    }
    if same_text(key, "gbrfh") {
        return Some("Guest bathroom floor heating");
    }
    if same_text(key, "hb") {
        return Some("Guest bathroom temperature valve");
    }
    if same_text(key, "k") {
        return Some("Kitchen shades");
    }
    if same_text(key, "kfh") {
        return Some("Kitchen floor heating");
    }
    if same_text(key, "kt") {
        return Some("Kitchen temperature controller");
    }
    if same_text(key, "lac") {
        return Some("Living room air conditioner");
    }
    if same_text(key, "ll") {
        return Some("Living room lights");
    }
    if same_text(key, "lr") {
        return Some("Living room shades");
    }
    if same_text(key, "ls") {
        return Some("Living room light switch");
    }
    if same_text(key, "oac") {
        return Some("Office air conditioner");
    }
    if same_text(key, "prx") {
        return Some("Proxy");
    }
    None
}

/// The device classes that the gateway can drive.
#[derive(Clone, Copy, Debug, PartialEq, Eq, Structural)]
pub enum ServiceKind {
    Rgbw,
    Shcnt,
}

/// The device class announced by a type tag.
pub open spec fn kind_of(t: Seq<char>) -> Option<ServiceKind> {
    if t == "rgbw"@ {
        Some(ServiceKind::Rgbw)
    } else if t == "shcnt"@ {
        Some(ServiceKind::Shcnt)
    } else {
        None
    }
}

/// Why a request for a device page cannot reach a device.
#[derive(Debug)]
pub enum RouteError {
    /// The id is not in the directory.
    NotDiscovered,
    /// The device announced no type.
    Untyped,
    /// The device announced a type that the gateway does not drive.
    UnknownType(String),
}

/// Resolves a device id to its class and address, or says why it cannot.
pub fn resolve(proxy: &Proxy, id: &str) -> (r: Result<(ServiceKind, Endpoint), RouteError>)
    requires
        proxy.wf(),
    ensures
        match r {
            Ok((k, a)) => {
                &&& proxy@.contains_key(id@)
                &&& proxy@[id@].address == a
                &&& proxy@[id@].service_type is Some
                &&& kind_of(proxy@[id@].service_type->0) == Some(k)
            },
            Err(RouteError::NotDiscovered) => !proxy@.contains_key(id@),
            Err(RouteError::Untyped) => proxy@.contains_key(id@) && proxy@[id@].service_type is None,
            Err(RouteError::UnknownType(t)) => {
                &&& proxy@.contains_key(id@)
                &&& proxy@[id@].service_type == Some(t@)
                &&& kind_of(t@) is None
            },
        },
{
    match proxy.service(id) {
        None => Err(RouteError::NotDiscovered),
        Some((None, _)) => Err(RouteError::Untyped),
        Some((Some(t), addr)) => {
            if same_text(t.as_str(), "rgbw") {
                Ok((ServiceKind::Rgbw, addr))
            } else if same_text(t.as_str(), "shcnt") {
                Ok((ServiceKind::Shcnt, addr))
            } else {
                Err(RouteError::UnknownType(t))
            }
        },
    }
}

/// Whether text `a` comes no later than text `b`, comparing character by character.
pub open spec fn text_le(a: Seq<char>, b: Seq<char>) -> bool
    decreases a.len(),
{
    if a.len() == 0 {
        true
    } else if b.len() == 0 {
        false
    } else if a[0] != b[0] {
        a[0] < b[0]
    } else {
        text_le(a.drop_first(), b.drop_first())
    }
}

proof fn lemma_text_le_total(a: Seq<char>, b: Seq<char>)
    ensures
        text_le(a, b) || text_le(b, a),
    decreases a.len(),
{
    if a.len() > 0 && b.len() > 0 && a[0] == b[0] {
        lemma_text_le_total(a.drop_first(), b.drop_first());
    }
}

/// Compares two texts character by character.
pub fn text_le_exec(a: &str, b: &str) -> (r: bool)
    ensures
        r == text_le(a@, b@),
{
    let n = a.unicode_len();
    let m = b.unicode_len();
    let mut i: usize = 0;
    assert(a@.subrange(0, n as int) =~= a@);
    assert(b@.subrange(0, m as int) =~= b@);
    while i < n && i < m
        invariant
            n == a@.len(),
            m == b@.len(),
            i <= n,
            i <= m,
            text_le(a@, b@) == text_le(a@.subrange(i as int, n as int), b@.subrange(i as int, m as int)),
        decreases n - i,
    {
        let x = a.get_char(i);
        let y = b.get_char(i);
        let ghost sa = a@.subrange(i as int, n as int);
        let ghost sb = b@.subrange(i as int, m as int);
        assert(sa[0] == x && sb[0] == y);
        if x != y {
            return x < y;
        }
        assert(sa.drop_first() =~= a@.subrange(i + 1, n as int));
        assert(sb.drop_first() =~= b@.subrange(i + 1, m as int));
        i = i + 1;
    }
    i == n
}

/// The name shown for a device: its registered label, or else its id.
pub open spec fn display_name(id: Seq<char>) -> Seq<char> {
    match label_of(id) {
        Some(l) => l,
        None => id,
    }
}

/// The order of the list page: by type with untyped devices last, then by name.
pub open spec fn order_le(
    ta: Option<Seq<char>>,
    na: Seq<char>,
    tb: Option<Seq<char>>,
    nb: Seq<char>,
) -> bool {
    match (ta, tb) {
        (Some(x), Some(y)) => if x == y {
            text_le(na, nb)
        } else {
            text_le(x, y)
        },
        (Some(_), None) => true,
        (None, Some(_)) => false,
        (None, None) => text_le(na, nb),
    }
}

/// One line of the list page.
#[derive(Debug)]
pub struct Listed {
    pub id: String,
    pub name: String,
    pub service_type: Option<String>,
    pub address: Endpoint,
}

/// Whether `a` may stand before `b` on the list page.
pub open spec fn listed_le(a: Listed, b: Listed) -> bool {
    order_le(a.service_type.deep_view(), a.name@, b.service_type.deep_view(), b.name@)
}

/// Whether `e` shows the directory's record for its id, under the id's display name.
pub open spec fn shows_record(m: Map<Seq<char>, Record>, e: Listed) -> bool {
    &&& m.contains_key(e.id@)
    &&& m[e.id@].service_type == e.service_type.deep_view()
    &&& m[e.id@].address == e.address
    &&& e.name@ == display_name(e.id@)
}

proof fn lemma_listed_le_total(a: Listed, b: Listed)
    ensures
        listed_le(a, b) || listed_le(b, a),
{
    lemma_text_le_total(a.name@, b.name@);
    match (a.service_type.deep_view(), b.service_type.deep_view()) {
        (Some(x), Some(y)) => lemma_text_le_total(x, y),
        _ => {},
    }
}

fn listed_before(a: &Listed, b: &Listed) -> (r: bool)
    ensures
        r == listed_le(*a, *b),
{
    match (&a.service_type, &b.service_type) {
        (Some(x), Some(y)) => {
            if same_text(x.as_str(), y.as_str()) {
                text_le_exec(a.name.as_str(), b.name.as_str())
            } else {
                text_le_exec(x.as_str(), y.as_str())
            }
        },
        (Some(_), None) => true,
        (None, Some(_)) => false,
        (None, None) => text_le_exec(a.name.as_str(), b.name.as_str()),
    }
}

fn insertion_point(v: &Vec<Listed>, x: &Listed) -> (p: usize)
    ensures
        p <= v@.len(),
        forall|j: int| 0 <= j < p ==> listed_le(#[trigger] v@[j], *x),
        p < v@.len() ==> !listed_le(v@[p as int], *x),
{
    let mut i: usize = 0;
    while i < v.len()
        invariant
            i <= v@.len(),
            forall|j: int| 0 <= j < i ==> listed_le(#[trigger] v@[j], *x),
        decreases v@.len() - i,
    {
        if !listed_before(&v[i], x) {
            return i;
        }
        i = i + 1;
    }
    i
}

/// The lines of the list page: every device of the directory once, under its display
/// name, ordered by type (untyped devices last), then by name.
pub fn service_listing(proxy: &Proxy) -> (r: Vec<Listed>)
    requires
        proxy.wf(),
    ensures
        r@.len() == proxy@.len(),
        forall|i: int| 0 <= i < r@.len() - 1 ==> listed_le(#[trigger] r@[i], r@[i + 1]),
        forall|i: int| 0 <= i < r@.len() ==> shows_record(proxy@, #[trigger] r@[i]),
        forall|k: Seq<char>|
            proxy@.contains_key(k) ==> exists|i: int| 0 <= i < r@.len() && #[trigger] r@[i].id@ == k,
{
    let items = proxy.all();
    let mut out: Vec<Listed> = Vec::new();
    let mut i: usize = 0;
    while i < items.len()
        invariant
            proxy.wf(),
            i <= items@.len(),
            items@.len() == proxy@.len(),
            forall|j: int|
                #![trigger items@[j]]
                0 <= j < items@.len() ==> {
                    &&& proxy@.contains_key(items@[j].0@)
                    &&& proxy@[items@[j].0@].service_type == items@[j].1.deep_view()
                    &&& proxy@[items@[j].0@].address == items@[j].2
                },
            forall|k: Seq<char>|
                proxy@.contains_key(k) ==> exists|j: int|
                    0 <= j < items@.len() && #[trigger] items@[j].0@ == k,
            out@.len() == i,
            forall|j: int| 0 <= j < out@.len() - 1 ==> listed_le(#[trigger] out@[j], out@[j + 1]),
            forall|j: int| 0 <= j < out@.len() ==> shows_record(proxy@, #[trigger] out@[j]),
            forall|j: int|
                0 <= j < i ==> exists|k: int|
                    0 <= k < out@.len() && #[trigger] out@[k].id@ == #[trigger] items@[j].0@,
        decreases items@.len() - i,
    {
        let it = &items[i];
        let name = match get_service_name(it.0.as_str()) {
            Some(n) => n.to_string(),
            None => it.0.clone(),
        };
        let x = Listed {
            id: it.0.clone(),
            name,
            service_type: match &it.1 {
                Some(t) => Some(t.clone()),
                None => None,
            },
            address: it.2,
        };
        assert(shows_record(proxy@, x));
        let p = insertion_point(&out, &x);
        let ghost before = out@;
        out.insert(p, x);
        proof {
            before.insert_ensures(p as int, x);
            assert forall|j: int| 0 <= j < out@.len() - 1 implies listed_le(
                #[trigger] out@[j],
                out@[j + 1],
            ) by {
                if j + 1 < p {
                    assert(out@[j] == before[j] && out@[j + 1] == before[j + 1]);
                } else if j + 1 == p {
                    assert(out@[j] == before[j]);
                } else if j == p {
                    lemma_listed_le_total(before[p as int], x);
                    assert(out@[j + 1] == before[p as int]);
                } else {
                    assert(out@[j] == before[j - 1] && out@[j + 1] == before[j]);
                }
            }
            assert forall|j: int| 0 <= j < out@.len() implies shows_record(
                proxy@,
                #[trigger] out@[j],
            ) by {
                if j < p {
                    assert(out@[j] == before[j]);
                } else if j > p {
                    assert(out@[j] == before[j - 1]);
                }
            }
            assert forall|j: int| 0 <= j < i + 1 implies exists|k: int|
                0 <= k < out@.len() && #[trigger] out@[k].id@ == #[trigger] items@[j].0@ by {
                if j == i {
                    assert(out@[p as int].id@ == items@[j].0@);
                } else {
                    let k = choose|k: int|
                        0 <= k < before.len() && #[trigger] before[k].id@ == items@[j].0@;
                    if k < p {
                        assert(out@[k] == before[k]);
                    } else {
                        assert(out@[k + 1] == before[k]);
                    }
                }
            }
        }
        i = i + 1;
    }
    proof {
        assert forall|k: Seq<char>| proxy@.contains_key(k) implies exists|i: int|
            0 <= i < out@.len() && #[trigger] out@[i].id@ == k by {
            let j = choose|j: int| 0 <= j < items@.len() && #[trigger] items@[j].0@ == k;
            let w = choose|w: int| 0 <= w < out@.len() && #[trigger] out@[w].id@ == items@[j].0@;
        }
    }
    out
}

} // verus!
