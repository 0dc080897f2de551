//! The registry entry type and its mathematical model.
use vstd::prelude::*;

verus! {

/// One registry entry. `target_addr` and `port` are optional: an absent
/// value means "use the default broadcast address / WOL port at send time"
/// and is omitted from the persisted document.
#[derive(Debug)]
pub struct Device {
    pub id: String,
    pub name: String,
    pub mac: String,
    pub target_addr: Option<String>,
    pub port: Option<u16>,
}

/// The model of a device: every text field as its character sequence.
#[verifier::ext_equal]
pub ghost struct DeviceView {
    pub id: Seq<char>,
    pub name: Seq<char>,
    pub mac: Seq<char>,
    pub target_addr: Option<Seq<char>>,
    pub port: Option<u16>,
}

impl View for Device {
    type V = DeviceView;

    open spec fn view(&self) -> DeviceView {
        DeviceView {
            id: self.id@,
            name: self.name@,
            mac: self.mac@,
            target_addr: match self.target_addr {
                Some(a) => Some(a@),
                None => None,
            },
            port: self.port,
        }
    }
}

/// The models of a list of devices, in order.
pub open spec fn views_of(s: Seq<Device>) -> Seq<DeviceView> {
    s.map_values(|d: Device| d@)
}

/// No two entries share an id.
pub open spec fn ids_distinct(vs: Seq<DeviceView>) -> bool {
    forall|i: int, j: int|
        #![trigger vs[i].id, vs[j].id]
        0 <= i < j < vs.len() ==> vs[i].id != vs[j].id
}

/// Some entry carries this id.
pub open spec fn contains_id(vs: Seq<DeviceView>, id: Seq<char>) -> bool {
    exists|i: int| 0 <= i < vs.len() && #[trigger] vs[i].id == id
}

fn opt_string_eq(a: &Option<String>, b: &Option<String>) -> (r: bool)
    ensures
        r == (match (a, b) {
            (Some(x), Some(y)) => x@ == y@,
            (None, None) => true,
            _ => false,
        }),
{
    match (a, b) {
        (Some(x), Some(y)) => *x == *y,
        (None, None) => true,
        _ => false,
    }
}

impl Clone for Device {
    /// A clone carries the same fields, id included.
    fn clone(&self) -> (r: Device)
        ensures
            r@ == self@,
    {
        Device {
            id: self.id.clone(),
            name: self.name.clone(),
            mac: self.mac.clone(),
            target_addr: match &self.target_addr {
                Some(a) => Some(a.clone()),
                None => None,
            },
            port: self.port,
        }
    }
}

impl PartialEq for Device {
    /// Two devices are equal when every field, id included, is equal.
    fn eq(&self, other: &Device) -> (r: bool) {
        let fields = self.id == other.id && self.name == other.name && self.mac == other.mac
            && opt_string_eq(&self.target_addr, &other.target_addr) && self.port == other.port;
        proof {
            if fields {
                assert(self@ =~= other@);
            }
        }
        fields
    }
}

impl Eq for Device {

}

impl vstd::std_specs::cmp::PartialEqSpecImpl for Device {
    open spec fn obeys_eq_spec() -> bool {
        true
    }

    open spec fn eq_spec(&self, other: &Device) -> bool {
        self@ == other@
    }
}

} // verus!
