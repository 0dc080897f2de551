//! The device registry: load, create, update and delete over the persisted
//! document. Every operation here is a whole transaction on plain values:
//! the caller reads the backing file into a string (or reports that it does
//! not exist), and writes back the document text an operation returns. When
//! an operation fails, no new document is returned, so the stored content
//! stays untouched.
use crate::device::{Device, DeviceView, contains_id, ids_distinct, views_of};
use crate::json::{doc_of, parse_devices, serialize_devices, sp_doc};
use vstd::prelude::*;

verus! {

/// Why a registry operation failed.
#[derive(Debug)]
pub enum StoreError {
    /// The host could not supply a configuration directory. Built by the
    /// caller that owns directory resolution, never by this module.
    ConfigDirUnavailable,
    /// Reading or writing the backing document failed. Built by the caller
    /// that owns the file, never by this module.
    IoError { path: String, detail: String },
    /// The backing document does not hold a serialized device list.
    DeserializationError,
    /// No entry carries the named id.
    NotFound { id: String },
}

/// Relies on `uuid::Uuid::new_v4` and its `Display` form: a fresh random
/// identifier, rendered as the 36-character hyphenated text.
#[verifier::external_body]
fn mint_id() -> (r: String)
    ensures
        r@.len() == 36,
{
    uuid::Uuid::new_v4().to_string()
}

/// Whether some entry carries this id.
fn id_in_use(devices: &Vec<Device>, id: &String) -> (r: bool)
    ensures
        r == contains_id(views_of(devices@), id@),
{
    let mut i: usize = 0;
    while i < devices.len()
        invariant
            i <= devices@.len(),
            forall|k: int| 0 <= k < i ==> (#[trigger] views_of(devices@)[k]).id != id@,
        decreases devices@.len() - i,
    {
        if devices[i].id == *id {
            proof {
                assert(views_of(devices@)[i as int].id == id@);
            }
            return true;
        }
        i = i + 1;
    }
    false
}

/// An id no current entry carries: the minted candidate or, on the remote
/// chance of a collision, the candidate lengthened past every existing id.
fn fresh_id(devices: &Vec<Device>) -> (r: String)
    ensures
        !contains_id(views_of(devices@), r@),
{
    let candidate = mint_id();
    if !id_in_use(devices, &candidate) {
        return candidate;
    }
    let mut maxlen: usize = 0;
    let mut i: usize = 0;
    while i < devices.len()
        invariant
            i <= devices@.len(),
            forall|k: int| 0 <= k < i ==> (#[trigger] views_of(devices@)[k]).id.len() <= maxlen,
        decreases devices@.len() - i,
    {
        let l = devices[i].id.as_str().unicode_len();
        if l > maxlen {
            maxlen = l;
        }
        i = i + 1;
    }
    let mut id = candidate;
    while id.as_str().unicode_len() <= maxlen
        decreases maxlen + 1 - id@.len(),
    {
        proof {
            reveal_strlit("x");
        }
        id.append("x");
    }
    proof {
        assert forall|k: int|
            0 <= k < views_of(devices@).len() implies (#[trigger] views_of(devices@)[k]).id
            != id@ by {
            assert(views_of(devices@)[k].id.len() <= maxlen);
        };
    }
    id
}

/// Appends `draft` under a freshly minted id; the draft's own id, if any, is
/// discarded. Never produces a duplicate id: the new id differs from every
/// existing one, and pairwise-distinct ids stay pairwise distinct.
pub fn append_device(devices: Vec<Device>, draft: Device) -> (r: Vec<Device>)
    ensures
        views_of(r@).len() == views_of(devices@).len() + 1,
        views_of(r@).take(devices@.len() as int) == views_of(devices@),
        views_of(r@).last().name == draft@.name,
        views_of(r@).last().mac == draft@.mac,
        views_of(r@).last().target_addr == draft@.target_addr,
        views_of(r@).last().port == draft@.port,
        !contains_id(views_of(devices@), views_of(r@).last().id),
        ids_distinct(views_of(devices@)) ==> ids_distinct(views_of(r@)),
{
    let id = fresh_id(&devices);
    let entry = Device {
        id,
        name: draft.name,
        mac: draft.mac,
        target_addr: draft.target_addr,
        port: draft.port,
    };
    let ghost old_vs = views_of(devices@);
    let ghost ev = entry@;
    let mut ds = devices;
    ds.push(entry);
    proof {
        assert(views_of(ds@) =~= old_vs.push(ev));
        assert(views_of(ds@).take(old_vs.len() as int) =~= old_vs);
        if ids_distinct(old_vs) {
            assert forall|i: int, j: int|
                #![trigger views_of(ds@)[i].id, views_of(ds@)[j].id]
                0 <= i < j < views_of(ds@).len() implies views_of(ds@)[i].id != views_of(ds@)[j].id by {
                if j < old_vs.len() {
                    assert(views_of(ds@)[i].id == old_vs[i].id);
                    assert(views_of(ds@)[j].id == old_vs[j].id);
                } else {
                    assert(views_of(ds@)[i].id == old_vs[i].id);
                    assert(!contains_id(old_vs, ev.id));
                    assert(old_vs[i].id != ev.id);
                }
            };
        }
    }
    ds
}

/// Replaces, in place, the entry whose id equals `device`'s id with `device`
/// verbatim; fails with `NotFound`, and changes nothing, exactly when no
/// entry carries that id.
pub fn replace_device(devices: Vec<Device>, device: Device) -> (r: Result<Vec<Device>, StoreError>)
    ensures
        match r {
            Ok(l) => (exists|k: int|
                0 <= k < views_of(devices@).len() && (#[trigger] views_of(devices@)[k]).id
                    == device@.id && (forall|m: int|
                    0 <= m < k ==> (#[trigger] views_of(devices@)[m]).id != device@.id)
                    && views_of(l@) == views_of(devices@).update(k, device@)) && (ids_distinct(
                views_of(devices@),
            ) ==> ids_distinct(views_of(l@))),
            Err(e) => !contains_id(views_of(devices@), device@.id) && (e matches
            StoreError::NotFound { id } && id@ == device@.id),
        },
{
    let ghost vs = views_of(devices@);
    let mut i: usize = 0;
    while i < devices.len()
        invariant
            vs == views_of(devices@),
            i <= devices@.len(),
            forall|m: int| 0 <= m < i ==> (#[trigger] vs[m]).id != device@.id,
        decreases devices@.len() - i,
    {
        if devices[i].id == device.id {
            let ghost dv = device@;
            let ghost k = i as int;
            let mut ds = devices;
            ds.remove(i);
            ds.insert(i, device);
            proof {
                assert(vs[k].id == dv.id);
                assert(views_of(ds@) =~= vs.update(k, dv));
                if ids_distinct(vs) {
                    assert forall|x: int, y: int|
                        #![trigger views_of(ds@)[x].id, views_of(ds@)[y].id]
                        0 <= x < y < views_of(ds@).len() implies views_of(ds@)[x].id != views_of(
                        ds@,
                    )[y].id by {
                        assert(views_of(ds@)[x].id == vs[x].id);
                        assert(views_of(ds@)[y].id == vs[y].id);
                        assert(vs[x].id != vs[y].id);
                    };
                }
            }
            return Ok(ds);
        }
        i = i + 1;
    }
    Err(StoreError::NotFound { id: device.id })
}

/// All entries of `vs` whose id differs from `id`, in their original order.
pub open spec fn without_id(vs: Seq<DeviceView>, id: Seq<char>) -> Seq<DeviceView> {
    vs.filter(|d: DeviceView| d.id != id)
}

/// Filtering an id out never leaves an entry with that id behind.
proof fn lemma_without_id_gone(vs: Seq<DeviceView>, id: Seq<char>)
    ensures
        !contains_id(without_id(vs, id), id),
    decreases vs.len(),
{
    reveal(Seq::filter);
    if vs.len() > 0 {
        lemma_without_id_gone(vs.drop_last(), id);
        let pred = |d: DeviceView| d.id != id;
        if pred(vs.last()) {
            assert(without_id(vs, id) == without_id(vs.drop_last(), id).push(vs.last()));
            assert forall|k: int|
                0 <= k < without_id(vs, id).len() implies (#[trigger] without_id(vs, id)[k]).id
                != id by {
                if k < without_id(vs.drop_last(), id).len() {
                    assert(without_id(vs, id)[k] == without_id(vs.drop_last(), id)[k]);
                } else {
                    assert(without_id(vs, id)[k] == vs.last());
                }
            };
        } else {
            assert(without_id(vs, id) == without_id(vs.drop_last(), id));
        }
    }
}

/// When no entry matches, the filter keeps everything.
proof fn lemma_without_id_all(vs: Seq<DeviceView>, id: Seq<char>)
    requires
        !contains_id(vs, id),
    ensures
        without_id(vs, id) == vs,
    decreases vs.len(),
{
    reveal(Seq::filter);
    if vs.len() > 0 {
        assert(!contains_id(vs.drop_last(), id)) by {
            assert forall|k: int|
                0 <= k < vs.drop_last().len() implies (#[trigger] vs.drop_last()[k]).id != id by {
                assert(vs[k].id != id);
            };
        };
        lemma_without_id_all(vs.drop_last(), id);
        assert(vs.last().id != id) by {
            assert(vs[vs.len() - 1].id != id);
        };
        assert(without_id(vs, id) =~= vs);
    }
}

/// With pairwise-distinct ids, removing a present id drops exactly one
/// entry.
proof fn lemma_without_id_len(vs: Seq<DeviceView>, id: Seq<char>)
    requires
        ids_distinct(vs),
        contains_id(vs, id),
    ensures
        without_id(vs, id).len() == vs.len() - 1,
    decreases vs.len(),
{
    reveal(Seq::filter);
    let w = choose|k: int| 0 <= k < vs.len() && (#[trigger] vs[k].id) == id;
    assert(ids_distinct(vs.drop_last())) by {
        assert forall|i: int, j: int|
            #![trigger vs.drop_last()[i].id, vs.drop_last()[j].id]
            0 <= i < j < vs.drop_last().len() implies vs.drop_last()[i].id != vs.drop_last()[j].id by {
            assert(vs[i].id != vs[j].id);
        };
    };
    if vs.last().id == id {
        assert(!contains_id(vs.drop_last(), id)) by {
            assert forall|k: int|
                0 <= k < vs.drop_last().len() implies (#[trigger] vs.drop_last()[k]).id != id by {
                assert(vs[k].id != vs[vs.len() - 1].id);
            };
        };
        lemma_without_id_all(vs.drop_last(), id);
    } else {
        assert(0 <= w < vs.len() - 1);
        assert(vs.drop_last()[w].id == id);
        assert(contains_id(vs.drop_last(), id));
        lemma_without_id_len(vs.drop_last(), id);
    }
}

/// Filtering keeps pairwise-distinct ids pairwise distinct, and every kept
/// id was already present.
proof fn lemma_without_id_distinct(vs: Seq<DeviceView>, id: Seq<char>)
    requires
        ids_distinct(vs),
    ensures
        ids_distinct(without_id(vs, id)),
        forall|k: int|
            0 <= k < without_id(vs, id).len() ==> exists|m: int|
                0 <= m < vs.len() && (#[trigger] without_id(vs, id)[k]).id == vs[m].id,
    decreases vs.len(),
{
    reveal(Seq::filter);
    let w = without_id(vs, id);
    if vs.len() > 0 {
        let a = vs.drop_last();
        assert(ids_distinct(a)) by {
            assert forall|i: int, j: int|
                #![trigger a[i].id, a[j].id]
                0 <= i < j < a.len() implies a[i].id != a[j].id by {
                assert(vs[i].id != vs[j].id);
            };
        };
        lemma_without_id_distinct(a, id);
        let wa = without_id(a, id);
        if vs.last().id != id {
            assert(w == wa.push(vs.last()));
            assert forall|i: int, j: int|
                #![trigger w[i].id, w[j].id]
                0 <= i < j < w.len() implies w[i].id != w[j].id by {
                if j < wa.len() {
                    assert(w[i] == wa[i]);
                    assert(w[j] == wa[j]);
                } else {
                    assert(w[j] == vs.last());
                    assert(w[i] == wa[i]);
                    let m = choose|m: int| 0 <= m < a.len() && (#[trigger] wa[i]).id == a[m].id;
                    assert(a[m].id == vs[m].id);
                    assert(vs[m].id != vs[vs.len() - 1].id);
                }
            };
            assert forall|k: int|
                0 <= k < w.len() implies exists|m: int|
                    0 <= m < vs.len() && (#[trigger] w[k]).id == vs[m].id by {
                if k < wa.len() {
                    assert(w[k] == wa[k]);
                    let m = choose|m: int| 0 <= m < a.len() && (#[trigger] wa[k]).id == a[m].id;
                    assert(w[k].id == vs[m].id);
                } else {
                    assert(w[k].id == vs[vs.len() - 1].id);
                }
            };
        } else {
            assert(w == wa);
            assert forall|k: int|
                0 <= k < w.len() implies exists|m: int|
                    0 <= m < vs.len() && (#[trigger] w[k]).id == vs[m].id by {
                let m = choose|m: int| 0 <= m < a.len() && (#[trigger] wa[k]).id == a[m].id;
                assert(w[k].id == vs[m].id);
            };
        }
    }
}

/// Removes every entry whose id equals `id`, keeping the others in order;
/// fails with `NotFound`, and changes nothing, exactly when no entry carries
/// that id. With distinct ids the result holds exactly one entry fewer, and
/// the id is gone from it.
pub fn remove_device(devices: Vec<Device>, id: &String) -> (r: Result<Vec<Device>, StoreError>)
    ensures
        match r {
            Ok(l) => {
                &&& contains_id(views_of(devices@), id@)
                &&& views_of(l@) == without_id(views_of(devices@), id@)
                &&& !contains_id(views_of(l@), id@)
                &&& (ids_distinct(views_of(devices@)) ==> views_of(l@).len() == views_of(
                    devices@,
                ).len() - 1)
                &&& (ids_distinct(views_of(devices@)) ==> ids_distinct(views_of(l@)))
            },
            Err(e) => !contains_id(views_of(devices@), id@) && (e matches StoreError::NotFound {
                id: missing,
            } && missing@ == id@),
        },
{
    let ghost vs = views_of(devices@);
    let mut kept: Vec<Device> = Vec::new();
    let mut found = false;
    let mut i: usize = 0;
    while i < devices.len()
        invariant
            vs == views_of(devices@),
            i <= devices@.len(),
            found == contains_id(vs.take(i as int), id@),
            views_of(kept@) == without_id(vs.take(i as int), id@),
        decreases devices@.len() - i,
    {
        let ghost pre = vs.take(i as int);
        proof {
            reveal(Seq::filter);
            assert(vs.take(i + 1).drop_last() =~= pre);
            assert(vs.take(i + 1).last() == vs[i as int]);
        }
        if devices[i].id == *id {
            found = true;
            proof {
                assert(vs[i as int].id == id@);
                assert(vs.take(i + 1)[i as int].id == id@);
                assert(contains_id(vs.take(i + 1), id@));
                assert(without_id(vs.take(i + 1), id@) == without_id(pre, id@));
            }
        } else {
            let d = devices[i].clone();
            proof {
                assert(d@ == vs[i as int]);
            }
            kept.push(d);
            proof {
                assert(without_id(vs.take(i + 1), id@) == without_id(pre, id@).push(vs[i as int]));
                assert(views_of(kept@) =~= without_id(pre, id@).push(vs[i as int]));
                if contains_id(vs.take(i + 1), id@) {
                    let w = choose|k: int|
                        0 <= k < vs.take(i + 1).len() && (#[trigger] vs.take(i + 1)[k].id) == id@;
                    assert(pre[w].id == id@);
                    assert(contains_id(pre, id@));
                }
                if contains_id(pre, id@) {
                    let w = choose|k: int| 0 <= k < pre.len() && (#[trigger] pre[k].id) == id@;
                    assert(vs.take(i + 1)[w].id == id@);
                    assert(contains_id(vs.take(i + 1), id@));
                }
            }
        }
        i = i + 1;
    }
    proof {
        assert(vs.take(vs.len() as int) =~= vs);
    }
    if !found {
        return Err(StoreError::NotFound { id: id.clone() });
    }
    proof {
        lemma_without_id_gone(vs, id@);
        if ids_distinct(vs) {
            lemma_without_id_len(vs, id@);
            lemma_without_id_distinct(vs, id@);
        }
    }
    Ok(kept)
}

/// Loads the device list from the backing document. A missing document is
/// the first run and yields the empty list; text that is not a serialized
/// device list fails with `DeserializationError`.
pub fn load_devices(doc: Option<&String>) -> (r: Result<Vec<Device>, StoreError>)
    ensures
        match doc {
            None => r matches Ok(l) && l@.len() == 0,
            Some(text) => match sp_doc(text@) {
                Some(ds) => r matches Ok(l) && views_of(l@) == ds,
                None => r matches Err(e) && e is DeserializationError,
            },
        },
{
    match doc {
        None => Ok(Vec::new()),
        Some(text) => match parse_devices(text.as_str()) {
            Some(l) => Ok(l),
            None => Err(StoreError::DeserializationError),
        },
    }
}

/// What the backing document holds: the empty list when it is absent, its
/// parsed contents otherwise, or nothing when it does not parse.
pub open spec fn loaded_views(doc: Option<Seq<char>>) -> Option<Seq<DeviceView>> {
    match doc {
        None => Some(Seq::empty()),
        Some(s) => sp_doc(s),
    }
}

/// The view of an optional document argument.
pub open spec fn doc_view(doc: Option<&String>) -> Option<Seq<char>> {
    match doc {
        Some(t) => Some(t@),
        None => None,
    }
}

/// The whole create transaction: load, append under a fresh id, serialize.
/// The returned text is the document to persist for the returned list.
pub fn add_device(doc: Option<&String>, draft: Device) -> (r: Result<
    (String, Vec<Device>),
    StoreError,
>)
    ensures
        match r {
            Ok((newdoc, l)) => loaded_views(doc_view(doc)) matches Some(ds) && {
                &&& newdoc@ == doc_of(views_of(l@))
                &&& views_of(l@).len() == ds.len() + 1
                &&& views_of(l@).take(ds.len() as int) == ds
                &&& views_of(l@).last().name == draft@.name
                &&& views_of(l@).last().mac == draft@.mac
                &&& views_of(l@).last().target_addr == draft@.target_addr
                &&& views_of(l@).last().port == draft@.port
                &&& !contains_id(ds, views_of(l@).last().id)
                &&& (ids_distinct(ds) ==> ids_distinct(views_of(l@)))
            },
            Err(e) => loaded_views(doc_view(doc)) is None && e is DeserializationError,
        },
{
    let devices = match load_devices(doc) {
        Ok(l) => l,
        Err(e) => {
            return Err(e);
        },
    };
    let ghost ds = views_of(devices@);
    let l = append_device(devices, draft);
    let newdoc = serialize_devices(&l);
    Ok((newdoc, l))
}

/// The whole update transaction: load, replace the entry with the given id,
/// serialize. On `NotFound` no document is returned, so the stored content
/// is unchanged.
pub fn update_device(doc: Option<&String>, device: Device) -> (r: Result<
    (String, Vec<Device>),
    StoreError,
>)
    ensures
        match r {
            Ok((newdoc, l)) => loaded_views(doc_view(doc)) matches Some(ds) && {
                &&& newdoc@ == doc_of(views_of(l@))
                &&& exists|k: int|
                    0 <= k < ds.len() && (#[trigger] ds[k]).id == device@.id && (forall|m: int|
                        0 <= m < k ==> (#[trigger] ds[m]).id != device@.id) && views_of(l@)
                        == ds.update(k, device@)
                &&& (ids_distinct(ds) ==> ids_distinct(views_of(l@)))
            },
            Err(e) => match loaded_views(doc_view(doc)) {
                Some(ds) => !contains_id(ds, device@.id) && (e matches StoreError::NotFound { id }
                    && id@ == device@.id),
                None => e is DeserializationError,
            },
        },
{
    let devices = match load_devices(doc) {
        Ok(l) => l,
        Err(e) => {
            return Err(e);
        },
    };
    let l = match replace_device(devices, device) {
        Ok(l) => l,
        Err(e) => {
            return Err(e);
        },
    };
    let newdoc = serialize_devices(&l);
    Ok((newdoc, l))
}

/// The whole delete transaction: load, remove the entry with the given id,
/// serialize. On `NotFound` no document is returned, so the stored content
/// is unchanged.
pub fn delete_device(doc: Option<&String>, device_id: &String) -> (r: Result<
    (String, Vec<Device>),
    StoreError,
>)
    ensures
        match r {
            Ok((newdoc, l)) => loaded_views(doc_view(doc)) matches Some(ds) && {
                &&& newdoc@ == doc_of(views_of(l@))
                &&& contains_id(ds, device_id@)
                &&& views_of(l@) == without_id(ds, device_id@)
                &&& !contains_id(views_of(l@), device_id@)
                &&& (ids_distinct(ds) ==> views_of(l@).len() == ds.len() - 1)
                &&& (ids_distinct(ds) ==> ids_distinct(views_of(l@)))
            },
            Err(e) => match loaded_views(doc_view(doc)) {
                Some(ds) => !contains_id(ds, device_id@) && (e matches StoreError::NotFound { id }
                    && id@ == device_id@),
                None => e is DeserializationError,
            },
        },
{
    let devices = match load_devices(doc) {
        Ok(l) => l,
        Err(e) => {
            return Err(e);
        },
    };
    let l = match remove_device(devices, device_id) {
        Ok(l) => l,
        Err(e) => {
            return Err(e);
        },
    };
    let newdoc = serialize_devices(&l);
    Ok((newdoc, l))
}

} // verus!
