//! The hive as a whole: loading, navigation, reading and in-place writing.

use vstd::prelude::*;

use crate::cell::{
    key_node_at, read_key_node, read_value_data, read_value_node, subkey_list,
    subkey_offsets, subkeys_fuel, ri_concat, value_data_spec, value_list, value_node_at, value_offsets, KeyNodeView, FREE,
};
use crate::error::{RegError, Result};
use crate::header::{has_regf_signature, parse_header, Header};
use crate::bytes::u32_at;
use crate::name::{eq_name, name_order};
use crate::value::{decodable, decode_value, RegValue, ValueModel};
use crate::tiling::{is_tile, keeps_used, tiled, used_tile};

verus! {

/// A REGF hive loaded in memory.
#[derive(Clone)]
pub struct Hive {
    data: Vec<u8>,
    header: Header,
}

/// The content of a hive: its bytes and its parsed header.
pub struct HiveView {
    pub data: Seq<u8>,
    pub header: Header,
}

impl View for Hive {
    type V = HiveView;

    closed spec fn view(&self) -> HiveView {
        HiveView { data: self.data@, header: self.header }
    }
}

/// Public view of a key node.
#[derive(Debug, Clone)]
pub struct KeyNode {
    pub name: String,
    pub subkey_count: u32,
    pub value_count: u32,
    pub offset: u32,
}

impl KeyNode {
    /// The data offset the node was read from.
    pub open spec fn node_offset(&self) -> u32 {
        self.offset
    }

    /// This node's data offset within the hive (relative to the hive bins).
    pub fn offset(&self) -> (r: u32)
        ensures
            r == self.node_offset(),
    {
        self.offset
    }
}

/// The outcome of a lookup by path.
pub enum Lookup<T> {
    Found(T),
    Fails(RegError),
    NoKey,
    NoValue,
}

/// The key node at `off` as the public `KeyNode` shows it.
pub open spec fn shows_node(k: KeyNode, v: KeyNodeView, off: u32) -> bool {
    &&& k.name@ == v.name
    &&& k.subkey_count == v.subkey_count
    &&& k.value_count == v.value_count
    &&& k.node_offset() == off
}

/// Splits a path at `\`, `cur` being the component read so far; empty
/// components are dropped.
pub open spec fn split_from(p: Seq<char>, cur: Seq<char>) -> Seq<Seq<char>>
    decreases p.len(),
{
    if p.len() == 0 {
        if cur.len() == 0 {
            Seq::empty()
        } else {
            seq![cur]
        }
    } else if p[0] == '\\' {
        (if cur.len() == 0 {
            Seq::<Seq<char>>::empty()
        } else {
            seq![cur]
        }) + split_from(p.skip(1), Seq::empty())
    } else {
        split_from(p.skip(1), cur.push(p[0]))
    }
}

/// The non-empty components of a `\`-separated path.
pub open spec fn path_parts(p: Seq<char>) -> Seq<Seq<char>> {
    split_from(p, Seq::empty())
}

/// The first of the key nodes `offs` named `name`.
pub open spec fn first_match(d: Seq<u8>, offs: Seq<u32>, name: Seq<char>) -> Result<Option<u32>>
    decreases offs.len(),
{
    if offs.len() == 0 {
        Ok(None)
    } else {
        match key_node_at(d, offs[0]) {
            Err(e) => Err(e),
            Ok(child) => if name_order(child.name, name) == 0 {
                Ok(Some(offs[0]))
            } else {
                first_match(d, offs.skip(1), name)
            },
        }
    }
}

/// The subkey of `parent` named `name`.
pub open spec fn find_child_spec(d: Seq<u8>, parent: u32, name: Seq<char>) -> Result<Option<u32>> {
    match key_node_at(d, parent) {
        Err(e) => Err(e),
        Ok(nk) => match subkey_list(d, nk.subkey_list_offset) {
            Err(e) => Err(e),
            Ok(offs) => first_match(d, offs, name),
        },
    }
}

/// Follows the path components `parts` down from the key node at `cur`.
pub open spec fn resolve_from(d: Seq<u8>, cur: u32, parts: Seq<Seq<char>>) -> Lookup<u32>
    decreases parts.len(),
{
    if parts.len() == 0 {
        Lookup::Found(cur)
    } else {
        match find_child_spec(d, cur, parts[0]) {
            Err(e) => Lookup::Fails(e),
            Ok(None) => Lookup::NoKey,
            Ok(Some(o)) => resolve_from(d, o, parts.skip(1)),
        }
    }
}

/// The key node offset that a path names in the hive `h`.
pub open spec fn resolve_spec(h: HiveView, path: Seq<char>) -> Lookup<u32> {
    resolve_from(h.data, h.header.root_cell_offset, path_parts(path))
}

/// The names of the key nodes `offs`.
pub open spec fn names_of(d: Seq<u8>, offs: Seq<u32>) -> Result<Seq<Seq<char>>>
    decreases offs.len(),
{
    if offs.len() == 0 {
        Ok(Seq::empty())
    } else {
        match key_node_at(d, offs[0]) {
            Err(e) => Err(e),
            Ok(k) => match names_of(d, offs.skip(1)) {
                Err(e) => Err(e),
                Ok(rest) => Ok(seq![k.name] + rest),
            },
        }
    }
}

/// The names of the subkeys of the key node at `off`.
pub open spec fn subkey_names(d: Seq<u8>, off: u32) -> Result<Seq<Seq<char>>> {
    match key_node_at(d, off) {
        Err(e) => Err(e),
        Ok(nk) => match subkey_list(d, nk.subkey_list_offset) {
            Err(e) => Err(e),
            Ok(offs) => names_of(d, offs),
        },
    }
}

/// The value that the value node `vk` holds; `None` where reading it would
/// panic.
pub open spec fn value_of(d: Seq<u8>, vk: crate::cell::ValueNodeView) -> Option<Result<ValueModel>> {
    match value_data_spec(d, vk) {
        None => None,
        Some(Err(e)) => Some(Err(e)),
        Some(Ok(raw)) => if decodable(vk.ty, raw) {
            Some(Ok(decode_value(vk.ty, raw)))
        } else {
            None
        },
    }
}

/// The first of the value nodes `offs` named `name`, decoded.
pub open spec fn find_value(d: Seq<u8>, offs: Seq<u32>, name: Seq<char>) -> Option<Lookup<ValueModel>>
    decreases offs.len(),
{
    if offs.len() == 0 {
        Some(Lookup::NoValue)
    } else {
        match value_node_at(d, offs[0]) {
            Err(e) => Some(Lookup::Fails(e)),
            Ok(vk) => if name_order(vk.name, name) == 0 {
                match value_of(d, vk) {
                    None => None,
                    Some(Err(e)) => Some(Lookup::Fails(e)),
                    Some(Ok(v)) => Some(Lookup::Found(v)),
                }
            } else {
                find_value(d, offs.skip(1), name)
            },
        }
    }
}

/// The value named `name` under the key node at `off`.
pub open spec fn value_under(d: Seq<u8>, off: u32, name: Seq<char>) -> Option<Lookup<ValueModel>> {
    match key_node_at(d, off) {
        Err(e) => Some(Lookup::Fails(e)),
        Ok(nk) => match value_list(d, nk.value_list_offset, nk.value_count) {
            Err(e) => Some(Lookup::Fails(e)),
            Ok(offs) => find_value(d, offs, name),
        },
    }
}

/// The value named `name` under the key at `path`.
pub open spec fn get_value_spec(h: HiveView, path: Seq<char>, name: Seq<char>) -> Option<
    Lookup<ValueModel>,
> {
    match resolve_spec(h, path) {
        Lookup::Found(off) => value_under(h.data, off, name),
        Lookup::Fails(e) => Some(Lookup::Fails(e)),
        Lookup::NoKey => Some(Lookup::NoKey),
        Lookup::NoValue => Some(Lookup::NoValue),
    }
}

/// All the values of the value nodes `offs`, with their names.
pub open spec fn all_values(d: Seq<u8>, offs: Seq<u32>) -> Option<Result<Seq<(Seq<char>, ValueModel)>>>
    decreases offs.len(),
{
    if offs.len() == 0 {
        Some(Ok(Seq::empty()))
    } else {
        match value_node_at(d, offs[0]) {
            Err(e) => Some(Err(e)),
            Ok(vk) => match value_of(d, vk) {
                None => None,
                Some(Err(e)) => Some(Err(e)),
                Some(Ok(v)) => match all_values(d, offs.skip(1)) {
                    None => None,
                    Some(Err(e)) => Some(Err(e)),
                    Some(Ok(rest)) => Some(Ok(seq![(vk.name, v)] + rest)),
                },
            },
        }
    }
}

/// All the values under the key node at `off`.
pub open spec fn values_under(d: Seq<u8>, off: u32) -> Option<Result<Seq<(Seq<char>, ValueModel)>>> {
    match key_node_at(d, off) {
        Err(e) => Some(Err(e)),
        Ok(nk) => match value_list(d, nk.value_list_offset, nk.value_count) {
            Err(e) => Some(Err(e)),
            Ok(offs) => all_values(d, offs),
        },
    }
}

/// The hive's bytes hold a base block that agrees with its header.
pub open spec fn hive_wf(h: HiveView) -> bool {
    &&& h.data.len() >= 0x1000
    &&& has_regf_signature(h.data)
    &&& h.header.major_version == u32_at(h.data, 0x14)
    &&& h.header.minor_version == u32_at(h.data, 0x18)
    &&& h.header.root_cell_offset == u32_at(h.data, 0x24)
}

/// Splits a path at `\` into its non-empty components.
fn split_path(path: &str) -> (parts: Vec<String>)
    ensures
        parts@.map_values(|s: String| s@) == path_parts(path@),
{
    let mut parts: Vec<String> = Vec::new();
    let mut cur = String::new();
    proof {
        assert(path@.skip(0) =~= path@);
        assert(parts@.map_values(|s: String| s@) + path_parts(path@) =~= path_parts(path@));
    }
    for c in it: path.chars()
        invariant
            it.seq() == path@,
            parts@.map_values(|s: String| s@) + split_from(path@.skip(it.index() as int), cur@)
                == path_parts(path@),
    {
        let ghost rest = path@.skip(it.index() as int);
        let ghost before = parts@.map_values(|s: String| s@);
        let ghost old_cur = cur@;
        proof {
            assert(rest[0] == c);
            assert(rest.skip(1) =~= path@.skip(it.index() + 1));
        }
        if c == '\\' {
            if !cur.as_str().is_empty() {
                parts.push(cur);
                cur = String::new();
                proof {
                    assert(split_from(rest, old_cur) == seq![old_cur] + split_from(rest.skip(1), Seq::empty()));
                    assert(parts@.map_values(|s: String| s@) =~= before.push(old_cur));
                    assert(before.push(old_cur) + split_from(path@.skip(it.index() + 1), cur@)
                        =~= before + (seq![old_cur] + split_from(path@.skip(it.index() + 1), cur@)));
                    assert(cur@ =~= Seq::<char>::empty());
                    assert(parts@.map_values(|s: String| s@) + split_from(path@.skip(it.index() + 1), cur@) == path_parts(path@));
                }
            } else {
                proof {
                    assert(split_from(rest, old_cur) == Seq::<Seq<char>>::empty() + split_from(rest.skip(1), Seq::empty()));
                    assert(Seq::<Seq<char>>::empty() + split_from(path@.skip(it.index() + 1), cur@)
                        =~= split_from(path@.skip(it.index() + 1), cur@));
                    assert(old_cur =~= Seq::<char>::empty());
                    assert(parts@.map_values(|s: String| s@) + split_from(path@.skip(it.index() + 1), cur@) == path_parts(path@));
                }
            }
        } else {
            cur.push(c);
            proof {
                assert(split_from(rest, old_cur) == split_from(rest.skip(1), old_cur.push(c)));
                assert(parts@.map_values(|s: String| s@) == before);
                assert(parts@.map_values(|s: String| s@) + split_from(path@.skip(it.index() + 1), cur@) == path_parts(path@));
            }
        }
    }
    let ghost before = parts@.map_values(|s: String| s@);
    let ghost old_cur = cur@;
    proof {
        assert(path@.skip(path@.len() as int) =~= Seq::<char>::empty());
    }
    if !cur.as_str().is_empty() {
        parts.push(cur);
        proof {
            assert(parts@.map_values(|s: String| s@) =~= before.push(old_cur));
            assert(before + seq![old_cur] =~= before.push(old_cur));
        }
    } else {
        proof {
            assert(before + Seq::<Seq<char>>::empty() =~= before);
        }
    }
    parts
}

} // verus!

verus! {

impl Hive {
    /// The hive's base block agrees with its header.
    pub open spec fn wf(&self) -> bool {
        hive_wf(self@)
    }

    // -- Loading ----------------------------------------------------------

    pub fn from_bytes(data: Vec<u8>) -> (r: Result<Self>)
        ensures
            match parse_header(data@) {
                Ok(h) => r matches Ok(hive) && hive@.data == data@ && hive@.header == h && hive.wf(),
                Err(e) => r matches Err(x) && x == e,
            },
    {
        let header = Header::parse(data.as_slice())?;
        Ok(Hive { data, header })
    }

    pub fn header(&self) -> (h: &Header)
        ensures
            *h == self@.header,
    {
        &self.header
    }

    /// See [`Header::is_dirty`].
    pub fn is_dirty(&self) -> (r: bool)
        ensures
            r == (self@.header.primary_sequence != self@.header.secondary_sequence),
    {
        self.header.is_dirty()
    }

    // -- Navigation -------------------------------------------------------

    pub fn root_key(&self) -> (r: Result<KeyNode>)
        ensures
            match key_node_at(self@.data, self@.header.root_cell_offset) {
                Ok(v) => r matches Ok(k) && shows_node(k, v, self@.header.root_cell_offset),
                Err(e) => r matches Err(x) && x == e,
            },
    {
        self.node_at(self.header.root_cell_offset)
    }

    /// Opens a key by path (separator `\`), case-insensitively.
    pub fn open(&self, path: &str) -> (r: Result<KeyNode>)
        ensures
            match resolve_spec(self@, path@) {
                Lookup::Found(off) => match key_node_at(self@.data, off) {
                    Ok(v) => r matches Ok(k) && shows_node(k, v, off),
                    Err(e) => r matches Err(x) && x == e,
                },
                Lookup::Fails(e) => r matches Err(x) && x == e,
                Lookup::NoKey => r matches Err(RegError::KeyNotFound(p)) && p@ == path@,
                Lookup::NoValue => false,
            },
    {
        let off = self.resolve(path)?;
        self.node_at(off)
    }

    pub fn list_subkeys(&self, path: &str) -> (r: Result<Vec<String>>)
        ensures
            match resolve_spec(self@, path@) {
                Lookup::Found(off) => match subkey_names(self@.data, off) {
                    Ok(names) => r matches Ok(v) && v@.map_values(|s: String| s@) == names,
                    Err(e) => r matches Err(x) && x == e,
                },
                Lookup::Fails(e) => r matches Err(x) && x == e,
                Lookup::NoKey => r matches Err(RegError::KeyNotFound(p)) && p@ == path@,
                Lookup::NoValue => false,
            },
    {
        let off = self.resolve(path)?;
        self.child_names(off)
    }

    pub fn list_values(&self, path: &str) -> (r: Result<Vec<(String, RegValue)>>)
        requires
            resolve_spec(self@, path@) matches Lookup::Found(off) ==> values_under(
                self@.data,
                off,
            ) is Some,
        ensures
            match resolve_spec(self@, path@) {
                Lookup::Found(off) => match values_under(self@.data, off).unwrap() {
                    Ok(vals) => r matches Ok(v) && v@.map_values(
                        |e: (String, RegValue)| (e.0@, e.1@),
                    ) == vals,
                    Err(e) => r matches Err(x) && x == e,
                },
                Lookup::Fails(e) => r matches Err(x) && x == e,
                Lookup::NoKey => r matches Err(RegError::KeyNotFound(p)) && p@ == path@,
                Lookup::NoValue => false,
            },
    {
        let off = self.resolve(path)?;
        let nk = read_key_node(self.data.as_slice(), off)?;
        let offs = value_offsets(self.data.as_slice(), nk.value_list_offset, nk.value_count)?;
        let ghost d = self@.data;
        let mut out: Vec<(String, RegValue)> = Vec::new();
        let mut i: usize = 0;
        proof {
            assert(offs@.skip(0) =~= offs@);
        }
        while i < offs.len()
            invariant
                d == self.data@,
                i <= offs@.len(),
                resolve_spec(self@, path@) == Lookup::Found(off),
                values_under(d, off) == all_values(d, offs@),
                all_values(d, offs@) is Some,
                all_values(d, offs@) == prepend_values(
                    out@.map_values(|e: (String, RegValue)| (e.0@, e.1@)),
                    all_values(d, offs@.skip(i as int)),
                ),
            decreases offs@.len() - i,
        {
            let ghost rest = offs@.skip(i as int);
            proof {
                assert(rest[0] == offs@[i as int]);
                assert(rest.skip(1) =~= offs@.skip(i + 1));
            }
            let vk = match read_value_node(self.data.as_slice(), offs[i]) {
                Ok(v) => v,
                Err(e) => {
                    proof {
                        assert(all_values(d, rest) == Some(Err::<Seq<(Seq<char>, ValueModel)>, RegError>(e)));
                    }
                    return Err(e);
                },
            };
            let raw = match read_value_data(self.data.as_slice(), &vk) {
                Ok(v) => v,
                Err(e) => {
                    proof {
                        assert(all_values(d, rest) == Some(Err::<Seq<(Seq<char>, ValueModel)>, RegError>(e)));
                    }
                    return Err(e);
                },
            };
            let value = RegValue::from_raw(vk.ty, raw.as_slice());
            let ghost before = out@.map_values(|e: (String, RegValue)| (e.0@, e.1@));
            let ghost item = (vk.name@, value@);
            out.push((vk.name, value));
            i = i + 1;
            proof {
                assert(out@.map_values(|e: (String, RegValue)| (e.0@, e.1@)) =~= before.push(item));
                match all_values(d, offs@.skip(i as int)) {
                    Some(Ok(t)) => {
                        assert(before.push(item) + t =~= before + (seq![item] + t));
                    },
                    _ => {},
                }
            }
        }
        proof {
            assert(offs@.skip(i as int) =~= Seq::<u32>::empty());
            let v = out@.map_values(|e: (String, RegValue)| (e.0@, e.1@));
            assert(v + Seq::<(Seq<char>, ValueModel)>::empty() =~= v);
        }
        Ok(out)
    }

    pub fn get_value(&self, path: &str, value_name: &str) -> (r: Result<RegValue>)
        requires
            get_value_spec(self@, path@, value_name@) is Some,
        ensures
            match get_value_spec(self@, path@, value_name@).unwrap() {
                Lookup::Found(v) => r matches Ok(x) && x@ == v,
                Lookup::Fails(e) => r matches Err(x) && x == e,
                Lookup::NoKey => r matches Err(RegError::KeyNotFound(p)) && p@ == path@,
                Lookup::NoValue => r matches Err(RegError::ValueNotFound(n)) && n@ == value_name@,
            },
    {
        let off = self.resolve(path)?;
        let nk = read_key_node(self.data.as_slice(), off)?;
        let offs = value_offsets(self.data.as_slice(), nk.value_list_offset, nk.value_count)?;
        let ghost d = self@.data;
        let mut i: usize = 0;
        proof {
            assert(offs@.skip(0) =~= offs@);
        }
        while i < offs.len()
            invariant
                d == self.data@,
                i <= offs@.len(),
                get_value_spec(self@, path@, value_name@) == find_value(d, offs@, value_name@),
                find_value(d, offs@, value_name@) is Some,
                find_value(d, offs@, value_name@) == find_value(
                    d,
                    offs@.skip(i as int),
                    value_name@,
                ),
            decreases offs@.len() - i,
        {
            let ghost rest = offs@.skip(i as int);
            proof {
                assert(rest[0] == offs@[i as int]);
                assert(rest.skip(1) =~= offs@.skip(i + 1));
            }
            let vk = match read_value_node(self.data.as_slice(), offs[i]) {
                Ok(v) => v,
                Err(e) => {
                    proof {
                        assert(find_value(d, rest, value_name@) == Some(Lookup::<ValueModel>::Fails(e)));
                    }
                    return Err(e);
                },
            };
            if eq_name(vk.name.as_str(), value_name) {
                let raw = match read_value_data(self.data.as_slice(), &vk) {
                    Ok(v) => v,
                    Err(e) => {
                        proof {
                            assert(find_value(d, rest, value_name@) == Some(Lookup::<ValueModel>::Fails(e)));
                        }
                        return Err(e);
                    },
                };
                return Ok(RegValue::from_raw(vk.ty, raw.as_slice()));
            }
            i = i + 1;
        }
        Err(RegError::ValueNotFound(value_name.to_owned()))
    }

    // -- Serialization ----------------------------------------------------

    /// Finalizes the header (sequences and checksum) and returns the hive
    /// bytes. Uses one sequence "tick": each call yields a new consistent
    /// transaction.
    pub fn to_bytes(&mut self) -> (out: Vec<u8>)
        requires
            old(self).wf(),
        ensures
            final(self).wf(),
            final(self)@.data == crate::header::sealed_header(
                old(self)@.data,
                final(self)@.header.primary_sequence,
                old(self)@.header.hive_bins_size,
            ),
            final(self)@.header.primary_sequence == vstd::wrapping::u32_specs::wrapping_add(
                old(self)@.header.primary_sequence,
                1,
            ),
            final(self)@.header.secondary_sequence == final(self)@.header.primary_sequence,
            final(self)@.header.major_version == old(self)@.header.major_version,
            final(self)@.header.minor_version == old(self)@.header.minor_version,
            final(self)@.header.root_cell_offset == old(self)@.header.root_cell_offset,
            final(self)@.header.hive_bins_size == old(self)@.header.hive_bins_size,
            out@ == final(self)@.data,
            parse_header(out@) == Ok::<Header, RegError>(final(self)@.header),
            bins_same(old(self)@.data, final(self)@.data),
            forall|p: Seq<char>| #[trigger] resolve_spec(final(self)@, p) == resolve_spec(old(self)@, p),
            forall|p: Seq<char>, n: Seq<char>| #[trigger] get_value_spec(final(self)@, p, n)
                == get_value_spec(old(self)@, p, n),
    {
        let ghost d = self.data@;
        self.header.finalize(self.data.as_mut_slice());
        proof {
            crate::header::lemma_sealed_header_parses(
                d,
                self.header.primary_sequence,
                self.header.hive_bins_size,
            );
            let sq = self.header.primary_sequence;
            let d1 = crate::bytes::put_u32(d, 0x04, sq);
            let d2 = crate::bytes::put_u32(d1, 0x08, sq);
            let d3 = crate::bytes::put_u32(d2, 0x28, old(self)@.header.hive_bins_size);
            crate::bytes::lemma_put_u32(d, 0x04, sq);
            crate::bytes::lemma_put_u32(d1, 0x08, sq);
            crate::bytes::lemma_put_u32(d2, 0x28, old(self)@.header.hive_bins_size);
            crate::bytes::lemma_put_u32(d3, 0x1FC, crate::header::header_checksum(d3));
            assert(bins_same(d, self.data@));
            assert forall|p: Seq<char>| #[trigger] resolve_spec(self@, p) == resolve_spec(old(self)@, p) by {
                lemma_same_bins_reads(old(self)@, self@, p, Seq::empty());
            }
            assert forall|p: Seq<char>, n: Seq<char>| #[trigger] get_value_spec(self@, p, n)
                == get_value_spec(old(self)@, p, n) by {
                lemma_same_bins_reads(old(self)@, self@, p, n);
            }
        }
        crate::bytes::slice_to_vec(self.data.as_slice())
    }

    // -- Internals --------------------------------------------------------

    fn resolve(&self, path: &str) -> (r: Result<u32>)
        ensures
            match resolve_spec(self@, path@) {
                Lookup::Found(off) => r == Ok::<u32, RegError>(off),
                Lookup::Fails(e) => r matches Err(x) && x == e,
                Lookup::NoKey => r matches Err(RegError::KeyNotFound(p)) && p@ == path@,
                Lookup::NoValue => false,
            },
    {
        let parts = split_path(path);
        let ghost ps = parts@.map_values(|s: String| s@);
        let mut current = self.header.root_cell_offset;
        let mut i: usize = 0;
        proof {
            assert(ps.skip(0) =~= ps);
        }
        while i < parts.len()
            invariant
                ps == parts@.map_values(|s: String| s@),
                ps == path_parts(path@),
                i <= parts@.len(),
                resolve_spec(self@, path@) == resolve_from(self.data@, current, ps.skip(i as int)),
            decreases parts@.len() - i,
        {
            let ghost rest = ps.skip(i as int);
            proof {
                assert(rest[0] == parts@[i as int]@);
                assert(rest.skip(1) =~= ps.skip(i + 1));
            }
            match self.find_child(current, parts[i].as_str())? {
                Some(off) => {
                    current = off;
                },
                None => {
                    return Err(RegError::KeyNotFound(path.to_owned()));
                },
            }
            i = i + 1;
        }
        Ok(current)
    }

    fn find_child(&self, parent: u32, name_wanted: &str) -> (r: Result<Option<u32>>)
        ensures
            r == find_child_spec(self@.data, parent, name_wanted@),
    {
        let nk = read_key_node(self.data.as_slice(), parent)?;
        let offs = subkey_offsets(self.data.as_slice(), nk.subkey_list_offset)?;
        let ghost d = self@.data;
        let mut i: usize = 0;
        proof {
            assert(offs@.skip(0) =~= offs@);
        }
        while i < offs.len()
            invariant
                d == self.data@,
                i <= offs@.len(),
                find_child_spec(d, parent, name_wanted@) == first_match(
                    d,
                    offs@.skip(i as int),
                    name_wanted@,
                ),
            decreases offs@.len() - i,
        {
            let ghost rest = offs@.skip(i as int);
            proof {
                assert(rest[0] == offs@[i as int]);
                assert(rest.skip(1) =~= offs@.skip(i + 1));
            }
            let child = read_key_node(self.data.as_slice(), offs[i])?;
            if eq_name(child.name.as_str(), name_wanted) {
                return Ok(Some(offs[i]));
            }
            i = i + 1;
        }
        Ok(None)
    }

    fn child_names(&self, parent: u32) -> (r: Result<Vec<String>>)
        ensures
            match subkey_names(self@.data, parent) {
                Ok(names) => r matches Ok(v) && v@.map_values(|s: String| s@) == names,
                Err(e) => r matches Err(x) && x == e,
            },
    {
        let nk = read_key_node(self.data.as_slice(), parent)?;
        let offs = subkey_offsets(self.data.as_slice(), nk.subkey_list_offset)?;
        let ghost d = self@.data;
        let mut out: Vec<String> = Vec::new();
        let mut i: usize = 0;
        proof {
            assert(offs@.skip(0) =~= offs@);
        }
        while i < offs.len()
            invariant
                d == self.data@,
                i <= offs@.len(),
                subkey_names(d, parent) == names_of(d, offs@),
                names_of(d, offs@) == prepend_names(
                    out@.map_values(|s: String| s@),
                    names_of(d, offs@.skip(i as int)),
                ),
            decreases offs@.len() - i,
        {
            let ghost rest = offs@.skip(i as int);
            proof {
                assert(rest[0] == offs@[i as int]);
                assert(rest.skip(1) =~= offs@.skip(i + 1));
            }
            let child = match read_key_node(self.data.as_slice(), offs[i]) {
                Ok(c) => c,
                Err(e) => {
                    proof {
                        assert(names_of(d, rest) == Err::<Seq<Seq<char>>, RegError>(e));
                    }
                    return Err(e);
                },
            };
            let ghost before = out@.map_values(|s: String| s@);
            let ghost nm = child.name@;
            out.push(child.name);
            i = i + 1;
            proof {
                assert(out@.map_values(|s: String| s@) =~= before.push(nm));
                match names_of(d, offs@.skip(i as int)) {
                    Ok(t) => {
                        assert(before.push(nm) + t =~= before + (seq![nm] + t));
                    },
                    _ => {},
                }
            }
        }
        proof {
            assert(offs@.skip(i as int) =~= Seq::<u32>::empty());
            let v = out@.map_values(|s: String| s@);
            assert(v + Seq::<Seq<char>>::empty() =~= v);
        }
        Ok(out)
    }

    fn node_at(&self, offset: u32) -> (r: Result<KeyNode>)
        ensures
            match key_node_at(self@.data, offset) {
                Ok(v) => r matches Ok(k) && shows_node(k, v, offset),
                Err(e) => r matches Err(x) && x == e,
            },
    {
        let raw = read_key_node(self.data.as_slice(), offset)?;
        Ok(
            KeyNode {
                name: raw.name,
                subkey_count: raw.subkey_count,
                value_count: raw.value_count,
                offset,
            },
        )
    }
}

/// `s` in front of the names of a result.
pub open spec fn prepend_names(s: Seq<Seq<char>>, r: Result<Seq<Seq<char>>>) -> Result<
    Seq<Seq<char>>,
> {
    match r {
        Ok(t) => Ok(s + t),
        Err(e) => Err(e),
    }
}

/// `s` in front of the values of a result.
pub open spec fn prepend_values(
    s: Seq<(Seq<char>, ValueModel)>,
    r: Option<Result<Seq<(Seq<char>, ValueModel)>>>,
) -> Option<Result<Seq<(Seq<char>, ValueModel)>>> {
    match r {
        Some(Ok(t)) => Some(Ok(s + t)),
        other => other,
    }
}

} // verus!

verus! {

/// The view of a (name, offset) entry.
pub open spec fn entry_view(e: (String, u32)) -> (Seq<char>, u32) {
    (e.0@, e.1)
}

/// The views of (name, offset) entries.
pub open spec fn entries_view(v: Seq<(String, u32)>) -> Seq<(Seq<char>, u32)> {
    v.map_values(|e: (String, u32)| entry_view(e))
}

/// Entries ordered by name, as Windows' binary search expects.
pub open spec fn sorted_by_name(s: Seq<(Seq<char>, u32)>) -> bool {
    forall|i: int, j: int| 0 <= i < j < s.len() ==> name_order(s[i].0, s[j].0) <= 0
}

/// Sorts entries by name (stable insertion sort).
fn sort_entries(entries: Vec<(String, u32)>) -> (out: Vec<(String, u32)>)
    ensures
        sorted_by_name(entries_view(out@)),
        entries_view(out@).to_multiset() == entries_view(entries@).to_multiset(),
{
    broadcast use {vstd::seq_lib::to_multiset_insert, vstd::seq_lib::to_multiset_build};

    let ghost input = entries_view(entries@);
    let n = entries.len();
    let mut rest = entries;
    let ghost all = rest@;
    let mut out: Vec<(String, u32)> = Vec::new();
    let mut taken: usize = 0;
    proof {
        assert(entries_view(out@) =~= Seq::<(Seq<char>, u32)>::empty());
        assert(input.take(0) =~= Seq::<(Seq<char>, u32)>::empty());
    }
    while rest.len() > 0
        invariant
            input == entries_view(all),
            n == all.len(),
            taken + rest@.len() == all.len(),
            rest@ == all.skip(taken as int),
            sorted_by_name(entries_view(out@)),
            entries_view(out@).to_multiset() == input.take(taken as int).to_multiset(),
        decreases rest@.len(),
    {
        let e = rest.remove(0);
        proof {
            assert(all.skip(taken as int)[0] == e);
            assert(all.skip(taken as int).skip(1) =~= all.skip(taken + 1));
        }
        let mut pos = out.len();
        while pos > 0 && name_after(out[pos - 1].0.as_str(), e.0.as_str())
            invariant
                pos <= out@.len(),
                sorted_by_name(entries_view(out@)),
                forall|k: int| pos <= k < out@.len() ==> name_order(out@[k].0@, e.0@) > 0,
            decreases pos,
        {
            pos = pos - 1;
        }
        let ghost before = entries_view(out@);
        let ghost ev = entry_view(e);
        proof {
            if pos > 0 {
                assert forall|k: int| 0 <= k < pos implies name_order(before[k].0, ev.0) <= 0 by {
                    if k < pos - 1 {
                        crate::name::lemma_name_order_transitive(before[k].0, before[pos - 1].0, ev.0);
                    }
                }
            }
            assert forall|k: int| pos <= k < before.len() implies name_order(ev.0, before[k].0) < 0 by {
                crate::name::lemma_name_order_antisymmetric(ev.0, before[k].0);
            }
        }
        out.insert(pos, e);
        taken = taken + 1;
        proof {
            let after = entries_view(out@);
            assert(after =~= before.insert(pos as int, ev));
            assert(input[taken - 1] == ev);
            assert(input.take(taken as int) =~= input.take(taken - 1).push(ev));
            vstd::seq_lib::to_multiset_insert(before, pos as int, ev);
            vstd::seq_lib::to_multiset_build(input.take(taken - 1), ev);
            assert forall|i: int, j: int| 0 <= i < j < after.len() implies name_order(after[i].0, after[j].0) <= 0 by {
                if i < pos && j < pos {
                } else if i < pos && j == pos {
                } else if i < pos && j > pos {
                    assert(name_order(before[i].0, ev.0) <= 0);
                    assert(name_order(ev.0, before[j - 1].0) < 0);
                    crate::name::lemma_name_order_transitive(before[i].0, ev.0, before[j - 1].0);
                } else if i == pos {
                } else {
                }
            }
        }
    }
    proof {
        assert(input.take(taken as int) =~= input);
    }
    out
}

/// Whether `a` comes after `b` in name order.
fn name_after(a: &str, b: &str) -> (r: bool)
    ensures
        r == (name_order(a@, b@) > 0),
{
    let bu = crate::utf16::str_utf16(b);
    let au = crate::utf16::str_utf16(a);
    crate::name::units_order(au.as_slice(), bu.as_slice()) > 0
}

} // verus!

verus! {

/// The first 4096 bytes (the base block) are kept, and the buffer does not
/// shrink below them.
pub open spec fn keeps_base(old_d: Seq<u8>, new_d: Seq<u8>) -> bool {
    &&& new_d.len() >= 0x1000
    &&& old_d.len() >= 0x1000
    &&& forall|i: int| 0 <= i < 0x1000 ==> #[trigger] new_d[i] == old_d[i]
}

/// Two headers agree on everything but the hive bins size.
pub open spec fn same_header(a: Header, b: Header) -> bool {
    &&& a.primary_sequence == b.primary_sequence
    &&& a.secondary_sequence == b.secondary_sequence
    &&& a.major_version == b.major_version
    &&& a.minor_version == b.minor_version
    &&& a.root_cell_offset == b.root_cell_offset
}

/// A write leaves a well-formed hive that 32-bit offsets still address.
pub open spec fn write_kept(old_h: HiveView, new_h: HiveView) -> bool {
    &&& hive_wf(new_h)
    &&& new_h.data.len() <= crate::hbin::max_hive_len()
    &&& same_header(old_h.header, new_h.header)
    &&& keeps_base(old_h.data, new_h.data)
}

/// Room for a new cell's payload in a hive of `len` bytes: cell sizes are
/// 32-bit signed and data offsets 32-bit unsigned.
pub open spec fn alloc_room(len: int) -> int {
    if len + 0x3000 >= 0x1_0000_1000 {
        0
    } else if 0x1_0000_1000 - 0x3000 - len < 0x7FFF_0000 {
        0x1_0000_1000 - 0x3000 - len
    } else {
        0x7FFF_0000
    }
}

/// A payload of `p` bytes can be added to a hive of `len` bytes.
pub open spec fn room_fits(len: int, p: int) -> bool {
    p <= alloc_room(len) && len + 0x3000 <= 0x1_0000_1000
}

/// An allocation that found a free cell large enough took the first one,
/// split it, and left the hive's length and bins size as they were: every
/// byte but the new payload's is as the split leaves it.
#[verifier::opaque]
pub open spec fn alloc_in_place(h: HiveView, h2: HiveView, off: u32, plen: int) -> bool {
    let need = crate::hbin::cell_need(plen);
    crate::hbin::first_fit(h.data, 0x1000, 0x1000 + h.header.hive_bins_size, need) matches Some(c)
        ==> {
        let d1 = crate::hbin::split_cell(h.data, c, crate::hbin::cell_size(crate::bytes::i32_at(h.data, c)), need);
        &&& off + 0x1000 == c
        &&& h2.data.len() == h.data.len()
        &&& h2.header.hive_bins_size == h.header.hive_bins_size
        &&& forall|i: int| 0 <= i < h.data.len() && !(c + 4 <= i < c + 4 + plen) ==> #[trigger] h2.data[i] == d1[i]
    }
}

proof fn lemma_put_keeps_base(d: Seq<u8>, k: int, v: u32)
    requires
        0x1000 <= k,
        k + 4 <= d.len(),
    ensures
        keeps_base(d, crate::bytes::put_u32(d, k, v)),
        crate::bytes::put_u32(d, k, v).len() == d.len(),
{
    crate::bytes::lemma_put_u32(d, k, v);
}

proof fn lemma_keeps_base_trans(a: Seq<u8>, b: Seq<u8>, c: Seq<u8>)
    requires
        keeps_base(a, b),
        keeps_base(b, c),
    ensures
        keeps_base(a, c),
{
}

proof fn lemma_wf_kept(h: HiveView, d: Seq<u8>, header: Header)
    requires
        hive_wf(h),
        keeps_base(h.data, d),
        same_header(h.header, header),
    ensures
        hive_wf(HiveView { data: d, header }),
{
    assert(d[0] == h.data[0] && d[1] == h.data[1] && d[2] == h.data[2] && d[3] == h.data[3]);
    assert(d[0x14] == h.data[0x14] && d[0x15] == h.data[0x15] && d[0x16] == h.data[0x16] && d[0x17]
        == h.data[0x17]);
    assert(d[0x18] == h.data[0x18] && d[0x19] == h.data[0x19] && d[0x1A] == h.data[0x1A] && d[0x1B]
        == h.data[0x1B]);
    assert(d[0x24] == h.data[0x24] && d[0x25] == h.data[0x25] && d[0x26] == h.data[0x26] && d[0x27]
        == h.data[0x27]);
}

/// An allocation in a tiled hive keeps it tiled: the cell it returns was
/// not allocated before and is now, and the cells allocated before keep
/// their sizes and bytes.
proof fn lemma_alloc_tiles(d0: Seq<u8>, hbs0: u32, plen: int, d1: Seq<u8>, hbs1: u32, off: u32)
    requires
        tiled(d0, hbs0),
        0 <= plen <= 0x7FFF_0000,
        d0.len() + plen + 0x3000 <= crate::hbin::max_hive_len(),
        ({
            let need = crate::hbin::cell_need(plen);
            match crate::hbin::first_fit(d0, 0x1000, 0x1000 + hbs0, need) {
                Some(c) => {
                    &&& off == (c - 0x1000) as u32
                    &&& d1 == crate::hbin::split_cell(d0, c, crate::hbin::cell_size(crate::bytes::i32_at(d0, c)), need)
                    &&& hbs1 == hbs0
                },
                None => {
                    &&& off == (d0.len() + 0x20 - 0x1000) as u32
                    &&& d1 == d0 + crate::hbin::new_bin(hbs0, need, crate::hbin::bin_size_for(need))
                    &&& hbs1 == vstd::wrapping::u32_specs::wrapping_add(hbs0, crate::hbin::bin_size_for(need) as u32)
                },
            }
        }),
    ensures
        tiled(d1, hbs1),
        used_tile(d1, off + 0x1000),
        !used_tile(d0, off + 0x1000),
        keeps_used(d0, d1),
{
    let need = crate::hbin::cell_need(plen);
    crate::hbin::lemma_cell_need_aligned(plen);
    crate::hbin::lemma_cell_need(plen);
    match crate::hbin::first_fit(d0, 0x1000, 0x1000 + hbs0, need) {
        Some(c) => {
            lemma_alloc_split(d0, hbs0, need, c, d1, off);
        },
        None => {
            lemma_alloc_append(d0, hbs0, need, d1, hbs1, off);
        },
    }
}

#[verifier::spinoff_prover]
proof fn lemma_alloc_split(d0: Seq<u8>, hbs0: u32, need: int, c: int, d1: Seq<u8>, off: u32)
    requires
        tiled(d0, hbs0),
        8 <= need,
        crate::hbin::first_fit(d0, 0x1000, 0x1000 + hbs0, need) == Some(c),
        off == (c - 0x1000) as u32,
        d1 == crate::hbin::split_cell(d0, c, crate::hbin::cell_size(crate::bytes::i32_at(d0, c)), need),
    ensures
        tiled(d1, hbs0),
        used_tile(d1, off + 0x1000),
        !used_tile(d0, off + 0x1000),
        keeps_used(d0, d1),
{
    crate::tiling::lemma_first_fit_tile(d0, 0x1000, need);
    crate::tiling::lemma_split_tiles(d0, c, need);
    crate::tiling::lemma_tile_bounds(d0, c);
    assert(off + 0x1000 == c);
    assert forall|f: int| used_tile(d0, f) implies #[trigger] used_tile(d1, f) && crate::tiling::size_at(d1, f) == crate::tiling::size_at(d0, f) by {
        assert(f != c);
    }
    assert forall|f: int, i: int|
        #![trigger used_tile(d0, f), d1[i]]
        used_tile(d0, f) && f <= i < f + crate::tiling::size_at(d0, f) implies d1[i] == d0[i] by {
        assert(f != c);
        assert(is_tile(d0, f));
    }
}

#[verifier::spinoff_prover]
proof fn lemma_alloc_append(d0: Seq<u8>, hbs0: u32, need: int, d1: Seq<u8>, hbs1: u32, off: u32)
    requires
        tiled(d0, hbs0),
        8 <= need <= 0x7FFF_1000,
        need % 8 == 0,
        d0.len() + need + 0x2000 <= crate::hbin::max_hive_len(),
        off == (d0.len() + 0x20 - 0x1000) as u32,
        d1 == d0 + crate::hbin::new_bin(hbs0, need, crate::hbin::bin_size_for(need)),
        hbs1 == vstd::wrapping::u32_specs::wrapping_add(hbs0, crate::hbin::bin_size_for(need) as u32),
    ensures
        tiled(d1, hbs1),
        used_tile(d1, off + 0x1000),
        !used_tile(d0, off + 0x1000),
        keeps_used(d0, d1),
{
    crate::tiling::lemma_append_tiles(d0, hbs0, need);
    crate::hbin::lemma_new_bin_layout(hbs0, need);
    let c = d0.len() as int + 0x20;
    assert(off + 0x1000 == c);
    assert(hbs1 == hbs0 + crate::hbin::bin_size_for(need));
    if is_tile(d0, c) {
        crate::tiling::lemma_tile_bounds(d0, c);
    }
    assert forall|f: int, i: int|
        #![trigger used_tile(d0, f), d1[i]]
        used_tile(d0, f) && f <= i < f + crate::tiling::size_at(d0, f) implies d1[i] == d0[i] by {
        crate::tiling::lemma_tile_bounds(d0, f);
    }
}

/// Room for a new cell's payload in a hive of `len` bytes.
fn room_for(len: usize) -> (r: u64)
    ensures
        r == alloc_room(len as int),
{
    let l = len as u64;
    if l >= 0x1_0000_1000u64 - 0x3000 {
        0
    } else if 0x1_0000_1000u64 - 0x3000 - l < 0x7FFF_0000 {
        0x1_0000_1000u64 - 0x3000 - l
    } else {
        0x7FFF_0000
    }
}

impl Hive {
    fn guard_writable(&self) -> (r: Result<()>)
        ensures
            self@.header.primary_sequence != self@.header.secondary_sequence ==> r == Err::<
                (),
                RegError,
            >(RegError::DirtyHive),
            self@.header.primary_sequence == self@.header.secondary_sequence ==> r is Ok,
    {
        if self.header.is_dirty() {
            return Err(RegError::DirtyHive);
        }
        Ok(())
    }

    /// Allocates a cell and writes `payload` into it.
    #[verifier::spinoff_prover]
    #[verifier::rlimit(40)]
    fn alloc_write(&mut self, payload: &[u8]) -> (r: Result<u32>)
        requires
            hive_wf(old(self)@),
            old(self)@.data.len() <= crate::hbin::max_hive_len(),
        ensures
            write_kept(old(self)@, final(self)@),
            match r {
                Ok(off) => crate::hbin::fresh_cell(
                    old(self)@.data,
                    final(self)@.data,
                    off,
                    payload@.len() as int,
                ) && (crate::hbin::payload_range(final(self)@.data, off) matches Ok((x, y))
                    && final(self)@.data.subrange(x, x + payload@.len()) == payload@),
                Err(e) => !room_fits(old(self)@.data.len() as int, payload@.len() as int) && e
                    == RegError::ValueTooLarge {
                    size: payload@.len() as usize,
                    max: alloc_room(old(self)@.data.len() as int) as usize,
                } && final(self)@ == old(self)@,
            },
            r matches Ok(off) ==> (tiled(old(self)@.data, old(self)@.header.hive_bins_size) ==> {
                &&& tiled(final(self)@.data, final(self)@.header.hive_bins_size)
                &&& used_tile(final(self)@.data, off + 0x1000)
                &&& !used_tile(old(self)@.data, off + 0x1000)
                &&& keeps_used(old(self)@.data, final(self)@.data)
            }),
            r matches Ok(off) ==> alloc_in_place(old(self)@, final(self)@, off, payload@.len() as int),
    {
        let room = room_for(self.data.len());
        if payload.len() as u64 > room || self.data.len() as u64 + 0x3000 > 0x1_0000_1000u64 {
            return Err(RegError::ValueTooLarge { size: payload.len(), max: room as usize });
        }
        let ghost d0 = self.data@;
        let ghost hbs0 = self.header.hive_bins_size;
        let off = match crate::hbin::allocate(
            &mut self.data,
            &mut self.header.hive_bins_size,
            payload.len(),
        ) {
            Ok(o) => o,
            Err(e) => {
                return Err(e);
            },
        };
        let ghost d1 = self.data@;
        let ghost hbs1 = self.header.hive_bins_size;
        proof {
            if tiled(d0, hbs0) {
                lemma_alloc_tiles(d0, hbs0, payload@.len() as int, d1, hbs1, off);
            }
        }
        let ghost (x, y) = crate::hbin::payload_range(d1, off).unwrap();
        let dst = match crate::hbin::payload_mut(self.data.as_mut_slice(), off) {
            Ok(p) => p,
            Err(e) => {
                return Err(e);
            },
        };
        crate::bytes::write_bytes(dst, 0, payload);
        proof {
            let d2 = self.data@;
            assert(d2.subrange(x, x + payload@.len()) =~= payload@);
            assert forall|i: int| 0 <= i < d1.len() && !(x <= i < x + payload@.len()) implies #[trigger] d2[i] == d1[i] by {}
            assert(alloc_in_place(old(self)@, self@, off, payload@.len() as int)) by {
                reveal(alloc_in_place);
                if let Some(c) = crate::hbin::first_fit(d0, 0x1000, 0x1000 + hbs0, crate::hbin::cell_need(payload@.len() as int)) {
                    crate::hbin::lemma_split_bytes(d0, c, crate::hbin::cell_size(crate::bytes::i32_at(d0, c)), crate::hbin::cell_need(payload@.len() as int));
                }
            }
            assert(keeps_base(d0, d2));
            lemma_wf_kept(old(self)@, d2, self.header);
            assert(d2[x - 4] == d1[x - 4] && d2[x - 3] == d1[x - 3] && d2[x - 2] == d1[x - 2] && d2[x
                - 1] == d1[x - 1]);
            assert(crate::hbin::payload_range(d2, off) == crate::hbin::payload_range(d1, off));
            assert forall|i: int| 0 <= i < off + 0x1000 && i < d0.len() implies #[trigger] d2[i] == d0[i] by {
                assert(d2[i] == d1[i]);
            }
            if tiled(d0, hbs0) {
                let c = off + 0x1000;
                assert forall|i: int| 0 <= i < d1.len() && !(x <= i < x + payload@.len()) implies #[trigger] d2[i] == d1[i] by {}
                crate::tiling::lemma_write_in_tile(d1, d2, c, x, x + payload@.len());
                crate::tiling::lemma_tile_bounds(d1, c);
                assert(is_tile(d2, c) && used_tile(d2, c));
                assert forall|f: int| used_tile(d0, f) implies #[trigger] used_tile(d2, f) && crate::tiling::size_at(d2, f) == crate::tiling::size_at(d0, f) by {
                    assert(used_tile(d1, f));
                }
                assert forall|f: int, i: int|
                    #![trigger used_tile(d0, f), d2[i]]
                    used_tile(d0, f) && f <= i < f + crate::tiling::size_at(d0, f) implies d2[i] == d0[i] by {
                    assert(used_tile(d1, f));
                    assert(f != c);
                    assert(is_tile(d1, f));
                    assert(d1[i] == d0[i]);
                    assert(d2[i] == d1[i]);
                }
            }
        }
        Ok(off)
    }
}

} // verus!

verus! {

/// The data of the value node `vk` lives in a cell of its own.
pub open spec fn data_in_cell(vk: crate::cell::ValueNodeView) -> bool {
    !vk.inline && vk.data_size != 0 && vk.data_offset != FREE && vk.data_offset != 0
}

/// The (name, offset) entries of the key nodes `offs`.
pub open spec fn entries_of(d: Seq<u8>, offs: Seq<u32>) -> Result<Seq<(Seq<char>, u32)>>
    decreases offs.len(),
{
    if offs.len() == 0 {
        Ok(Seq::empty())
    } else {
        match key_node_at(d, offs[0]) {
            Err(e) => Err(e),
            Ok(k) => match entries_of(d, offs.skip(1)) {
                Err(e) => Err(e),
                Ok(rest) => Ok(seq![(k.name, offs[0])] + rest),
            },
        }
    }
}

/// The (name, offset) entries of the subkeys of the key node at `off`.
pub open spec fn child_entries_spec(d: Seq<u8>, off: u32) -> Result<Seq<(Seq<char>, u32)>> {
    match key_node_at(d, off) {
        Err(e) => Err(e),
        Ok(nk) => match subkey_list(d, nk.subkey_list_offset) {
            Err(e) => Err(e),
            Ok(offs) => entries_of(d, offs),
        },
    }
}

/// `s` in front of the entries of a result.
pub open spec fn prepend_entries(s: Seq<(Seq<char>, u32)>, r: Result<Seq<(Seq<char>, u32)>>) -> Result<
    Seq<(Seq<char>, u32)>,
> {
    match r {
        Ok(t) => Ok(s + t),
        Err(e) => Err(e),
    }
}

/// The cells that freeing the subkey list at `list_off` frees: the list
/// and, for an `ri` list, the lists it references (first).
pub open spec fn lists_freed(d: Seq<u8>, list_off: u32) -> Seq<u32> {
    if list_off == FREE || list_off == 0 {
        Seq::empty()
    } else {
        match crate::cell::cell_payload_spec(d, list_off) {
            Ok(p) => if p.len() >= 4 && crate::cell::has_magic(p, 0x72, 0x69) {
                crate::cell::offsets_in(p, 4, 4, crate::bytes::u16_at(p, 2) as nat).push(list_off)
            } else {
                seq![list_off]
            },
            Err(_) => seq![list_off],
        }
    }
}

/// After freeing the cells `fs`, the hive is still tiled, its length and
/// header are unchanged, and every other allocated cell is still allocated
/// with its size.
pub open spec fn frees_keep_tiles(h: HiveView, h2: HiveView, fs: Seq<u32>) -> bool {
    &&& tiled(h2.data, h2.header.hive_bins_size)
    &&& forall|o: u32|
        used_tile(h.data, o + 0x1000) && !fs.contains(o) ==> #[trigger] used_tile(h2.data, o + 0x1000)
            && crate::tiling::size_at(h2.data, o + 0x1000) == crate::tiling::size_at(h.data, o + 0x1000)
}

/// Freeing the cells `fs` one after the other keeps the tiling: the hive
/// is tiled and under 2 GiB, and `fs` lists distinct allocated cells.
pub open spec fn frees_ready(h: HiveView, fs: Seq<u32>) -> bool {
    &&& tiled(h.data, h.header.hive_bins_size)
    &&& (fs.len() == 0 || h.data.len() <= 0x8000_0000)
    &&& fs.no_duplicates()
    &&& forall|k: int| 0 <= k < fs.len() ==> used_tile(h.data, #[trigger] fs[k] + 0x1000)
}

/// The next cell to free is still allocated, in a tiled hive of the same
/// length.
proof fn lemma_frees_next(h: HiveView, h1: HiveView, fs: Seq<u32>, k: int)
    requires
        frees_ready(h, fs),
        0 <= k < fs.len(),
        frees_keep_tiles(h, h1, fs.take(k)),
        h1.data.len() == h.data.len(),
    ensures
        tiled(h1.data, h1.header.hive_bins_size),
        used_tile(h1.data, fs[k] + 0x1000),
        h1.data.len() <= 0x8000_0000,
{
    assert(used_tile(h.data, fs[k] + 0x1000));
    assert(!fs.take(k).contains(fs[k])) by {
        if fs.take(k).contains(fs[k]) {
            let j = choose|j: int| 0 <= j < fs.take(k).len() && fs.take(k)[j] == fs[k];
            assert(fs[j] == fs[k]);
        }
    }
}

/// Freeing one more cell of `fs` keeps the tiling.
#[verifier::spinoff_prover]
proof fn lemma_frees_compose(h: HiveView, h1: HiveView, h2: HiveView, fs: Seq<u32>, k: int)
    requires
        0 <= k < fs.len(),
        frees_keep_tiles(h, h1, fs.take(k)),
        frees_keep_tiles(h1, h2, seq![fs[k]]),
    ensures
        frees_keep_tiles(h, h2, fs.take(k + 1)),
{
    assert forall|o: u32|
        used_tile(h.data, o + 0x1000) && !fs.take(k + 1).contains(o) implies #[trigger] used_tile(
        h2.data,
        o + 0x1000,
    ) && crate::tiling::size_at(h2.data, o + 0x1000) == crate::tiling::size_at(h.data, o + 0x1000) by {
        assert(!fs.take(k).contains(o)) by {
            if fs.take(k).contains(o) {
                let j = choose|j: int| 0 <= j < fs.take(k).len() && fs.take(k)[j] == o;
                assert(fs.take(k + 1)[j] == o);
            }
        }
        assert(o != fs[k]) by {
            assert(fs.take(k + 1)[k] == fs[k]);
        }
        assert(!seq![fs[k]].contains(o)) by {
            if seq![fs[k]].contains(o) {
                assert(seq![fs[k]][0] == fs[k]);
            }
        }
        assert(used_tile(h1.data, o + 0x1000));
        assert(crate::tiling::size_at(h1.data, o + 0x1000) == crate::tiling::size_at(h.data, o + 0x1000));
        assert(used_tile(h2.data, o + 0x1000));
        assert(crate::tiling::size_at(h2.data, o + 0x1000) == crate::tiling::size_at(h1.data, o + 0x1000));
    }
}

/// Byte `i` lies in none of the cell headers of `offs`.
pub open spec fn outside_headers(offs: Seq<u32>, i: int) -> bool {
    forall|k: int| 0 <= k < offs.len() ==> !(#[trigger] offs[k] + 0x1000 <= i < offs[k] + 0x1004)
}

/// A byte outside the headers of a list of cells is outside those of a
/// prefix of it.
proof fn lemma_outside_prefix(fs: Seq<u32>, n: int, x: int)
    requires
        0 <= n <= fs.len(),
        outside_headers(fs, x),
    ensures
        outside_headers(fs.take(n), x),
{
    assert forall|k: int| 0 <= k < fs.take(n).len() implies !(#[trigger] fs.take(n)[k] + 0x1000 <= x
        < fs.take(n)[k] + 0x1004) by {
        assert(fs.take(n)[k] == fs[k]);
    }
}

/// The bytes after freeing the cell at `off` of a hive whose bins span
/// `hbs` bytes: its size field rewritten as a free cell, merged with the
/// free cells that follow it in its bin; the error when no size field lies
/// there.
pub open spec fn freed_spec(d: Seq<u8>, off: u32, hbs: u32) -> Result<Seq<u8>> {
    let idx = off + 0x1000;
    if idx + 4 > d.len() {
        Err(RegError::Truncated { offset: idx as usize })
    } else {
        Ok(
            crate::bytes::put_u32(
                d,
                idx,
                crate::bytes::i32_bits(
                    crate::hbin::coalesced_size(
                        d,
                        idx,
                        crate::hbin::cell_size(crate::bytes::i32_at(d, idx)),
                        crate::hbin::enclosing_end(d, 0x1000, 0x1000 + hbs, idx),
                    ) as i32,
                ),
            ),
        )
    }
}

/// The bytes after freeing the cells `fs` one after the other, or the
/// error of the first free that fails.
pub open spec fn frees_spec(d: Seq<u8>, fs: Seq<u32>, hbs: u32) -> Result<Seq<u8>>
    decreases fs.len(),
{
    if fs.len() == 0 {
        Ok(d)
    } else {
        match frees_spec(d, fs.drop_last(), hbs) {
            Err(e) => Err(e),
            Ok(d1) => freed_spec(d1, fs.last(), hbs),
        }
    }
}

/// `h2` and `r` are what freeing the cell at `off` of `h` gives: the freed
/// bytes and `Ok`, or `h` unchanged and the error.
#[verifier::opaque]
pub open spec fn freed_as(h: HiveView, h2: HiveView, off: u32, r: Result<()>) -> bool {
    match freed_spec(h.data, off, h.header.hive_bins_size) {
        Ok(d) => r is Ok && h2.data == d,
        Err(e) => r == Err::<(), RegError>(e) && h2 == h,
    }
}

/// Once one of the frees fails, the rest changes nothing of the outcome.
proof fn lemma_frees_err(d: Seq<u8>, fs: Seq<u32>, k: int, hbs: u32)
    requires
        0 <= k <= fs.len(),
        frees_spec(d, fs.take(k), hbs) is Err,
    ensures
        frees_spec(d, fs, hbs) == frees_spec(d, fs.take(k), hbs),
    decreases fs.len(),
{
    if k == fs.len() {
        assert(fs.take(k) =~= fs);
    } else {
        assert(fs.drop_last().take(k) =~= fs.take(k));
        lemma_frees_err(d, fs.drop_last(), k, hbs);
    }
}

impl Hive {
    /// Frees the cell at `off` (see [`crate::hbin::free`]).
    #[verifier::spinoff_prover]
    #[verifier::rlimit(30)]
    fn free_cell(&mut self, off: u32) -> (r: Result<()>)
        requires
            hive_wf(old(self)@),
            old(self)@.data.len() <= crate::hbin::max_hive_len(),
        ensures
            write_kept(old(self)@, final(self)@),
            final(self)@.header == old(self)@.header,
            r is Err ==> final(self)@ == old(self)@,
            final(self)@.data.len() == old(self)@.data.len(),
            forall|i: int|
                0 <= i < old(self)@.data.len() && !(off + 0x1000 <= i < off + 0x1004)
                    ==> #[trigger] final(self)@.data[i] == old(self)@.data[i],
            tiled(old(self)@.data, old(self)@.header.hive_bins_size) && used_tile(
                old(self)@.data,
                off + 0x1000,
            ) && old(self)@.data.len() <= 0x8000_0000 ==> frees_keep_tiles(
                old(self)@,
                final(self)@,
                seq![off],
            ),
            off + 0x1004 <= old(self)@.data.len() ==> r is Ok,
            freed_as(old(self)@, final(self)@, off, r),
    {
        let ghost d = self.data@;
        let r = crate::hbin::free(self.data.as_mut_slice(), off, self.header.hive_bins_size);
        let ghost hbs = self.header.hive_bins_size;
        proof {
            assert(freed_as(old(self)@, self@, off, r)) by {
                reveal(freed_as);
            }
            let idx = off + 0x1000;
            assert(keeps_base(d, self.data@)) by {
                if idx + 4 <= d.len() {
                    let v = crate::bytes::i32_bits(
                        crate::hbin::coalesced_size(
                            d,
                            idx,
                            crate::hbin::cell_size(crate::bytes::i32_at(d, idx)),
                            crate::hbin::enclosing_end(d, 0x1000, 0x1000 + hbs, idx),
                        ) as i32,
                    );
                    lemma_put_keeps_base(d, idx, v);
                }
            }
            lemma_wf_kept(old(self)@, self.data@, self.header);
            assert(tiled(d, hbs) && used_tile(d, idx) && d.len() <= 0x8000_0000 ==> frees_keep_tiles(
                old(self)@,
                self@,
                seq![off],
            )) by {
                if tiled(d, hbs) && used_tile(d, idx) && d.len() <= 0x8000_0000 {
                    crate::tiling::lemma_free_tiles(d, hbs, idx);
                    assert forall|o: u32|
                        used_tile(d, o + 0x1000) && !seq![off].contains(o) implies #[trigger] used_tile(
                        self.data@,
                        o + 0x1000,
                    ) && crate::tiling::size_at(self.data@, o + 0x1000) == crate::tiling::size_at(
                        d,
                        o + 0x1000,
                    ) by {
                        assert(seq![off][0] == off);
                    }
                }
            }
        }
        r
    }

    /// Writes `value` into the `u32` field at `field` of the key node at
    /// `nk` (see [`crate::cell::set_nk_field`]).
    fn set_field(&mut self, nk: u32, field: usize, value: u32) -> (r: Result<()>)
        requires
            hive_wf(old(self)@),
            old(self)@.data.len() <= crate::hbin::max_hive_len(),
        ensures
            write_kept(old(self)@, final(self)@),
            final(self)@.header == old(self)@.header,
            match crate::cell::set_field_spec(old(self)@.data, nk, field as int, value) {
                Ok(d) => r is Ok && final(self)@.data == d,
                Err(e) => r == Err::<(), RegError>(e) && final(self)@ == old(self)@,
            },
            final(self)@.data.len() == old(self)@.data.len(),
    {
        let ghost d = self.data@;
        let r = crate::cell::set_nk_field(self.data.as_mut_slice(), nk, field, value);
        proof {
            if let Ok((a, b)) = crate::hbin::payload_range(d, nk) {
                if field + 4 <= b - a {
                    lemma_put_keeps_base(d, a + field, value);
                    crate::bytes::lemma_put_u32(d, a + field, value);
                }
            }
            lemma_wf_kept(old(self)@, self.data@, self.header);
        }
        r
    }

    /// Increments the reference count of the security cell at `sk`.
    fn incr_refcount(&mut self, sk: u32) -> (r: Result<()>)
        requires
            hive_wf(old(self)@),
            old(self)@.data.len() <= crate::hbin::max_hive_len(),
        ensures
            write_kept(old(self)@, final(self)@),
            final(self)@.header == old(self)@.header,
            match crate::cell::incr_refcount_spec(old(self)@.data, sk) {
                Ok(d) => r is Ok && final(self)@.data == d,
                Err(e) => r == Err::<(), RegError>(e) && final(self)@ == old(self)@,
            },
    {
        let ghost d = self.data@;
        let r = crate::cell::incr_security_refcount(self.data.as_mut_slice(), sk);
        proof {
            if let Ok((a, b)) = crate::hbin::payload_range(d, sk) {
                if b - a >= 16 {
                    lemma_put_keeps_base(
                        d,
                        a + 12,
                        vstd::wrapping::u32_specs::wrapping_add(u32_at(d, a + 12), 1),
                    );
                }
            }
            lemma_wf_kept(old(self)@, self.data@, self.header);
        }
        r
    }

    /// Writes a value list holding `offs` into a new cell.
    fn write_value_list(&mut self, offs: &[u32]) -> (r: Result<u32>)
        requires
            hive_wf(old(self)@),
            old(self)@.data.len() <= crate::hbin::max_hive_len(),
        ensures
            write_kept(old(self)@, final(self)@),
            r is Err ==> final(self)@ == old(self)@,
            r matches Ok(l) ==> (crate::hbin::payload_range(final(self)@.data, l) matches Ok((x, y))
                && y - x >= 4 * offs@.len() && final(self)@.data.subrange(x, x + 4 * offs@.len())
                == crate::cell::le32_list(offs@)),
            r matches Ok(l) ==> (tiled(old(self)@.data, old(self)@.header.hive_bins_size) ==> {
                &&& tiled(final(self)@.data, final(self)@.header.hive_bins_size)
                &&& used_tile(final(self)@.data, l + 0x1000)
                &&& !used_tile(old(self)@.data, l + 0x1000)
                &&& keeps_used(old(self)@.data, final(self)@.data)
            }),
            r is Err ==> !room_fits(old(self)@.data.len() as int, 4 * offs@.len() as int),
            r matches Ok(l) ==> old(self)@.data.len() <= final(self)@.data.len() <= old(self)@.data.len()
                + 4 * offs@.len() + 0x2000,
    {
        let mut payload: Vec<u8> = Vec::new();
        let mut i: usize = 0;
        while i < offs.len()
            invariant
                i <= offs@.len(),
                payload@ == crate::cell::le32_list(offs@.take(i as int)),
            decreases offs@.len() - i,
        {
            crate::value::push_u32_le(&mut payload, offs[i]);
            proof {
                assert(offs@.take(i + 1).drop_last() =~= offs@.take(i as int));
                assert(offs@.take(i + 1).last() == offs@[i as int]);
            }
            i = i + 1;
        }
        proof {
            assert(offs@.take(i as int) =~= offs@);
            crate::cell::lemma_le32_list_len(offs@);
        }
        self.alloc_write(payload.as_slice())
    }

    /// Frees a value node's data cell (unless the data is inline).
    fn free_value_storage(&mut self, vk: &crate::cell::ValueNodeRaw) -> (r: Result<()>)
        requires
            hive_wf(old(self)@),
            old(self)@.data.len() <= crate::hbin::max_hive_len(),
        ensures
            write_kept(old(self)@, final(self)@),
            final(self)@.header == old(self)@.header,
            final(self)@.data.len() == old(self)@.data.len(),
            !data_in_cell(vk@) ==> final(self)@ == old(self)@,
            forall|i: int|
                0 <= i < old(self)@.data.len() && !(vk.data_offset + 0x1000 <= i < vk.data_offset
                    + 0x1004) ==> #[trigger] final(self)@.data[i] == old(self)@.data[i],
            data_in_cell(vk@) && tiled(old(self)@.data, old(self)@.header.hive_bins_size)
                && used_tile(old(self)@.data, vk.data_offset + 0x1000) && old(self)@.data.len()
                <= 0x8000_0000 ==> frees_keep_tiles(old(self)@, final(self)@, seq![vk.data_offset]),
            (data_in_cell(vk@) ==> vk.data_offset + 0x1004 <= old(self)@.data.len()) ==> r is Ok,
            data_in_cell(vk@) ==> freed_as(old(self)@, final(self)@, vk.data_offset, r),
            !data_in_cell(vk@) ==> r is Ok,
    {
        if !vk.inline && vk.data_size != 0 && vk.data_offset != FREE && vk.data_offset != 0 {
            return self.free_cell(vk.data_offset);
        }
        proof {
            lemma_wf_kept(old(self)@, self.data@, self.header);
        }
        Ok(())
    }

    /// Frees a subkey list; for an `ri` list, also each leaf list it
    /// references.
    #[verifier::spinoff_prover]
    #[verifier::rlimit(60)]
    fn free_subkey_list(&mut self, list_off: u32) -> (r: Result<()>)
        requires
            hive_wf(old(self)@),
            old(self)@.data.len() <= crate::hbin::max_hive_len(),
        ensures
            write_kept(old(self)@, final(self)@),
            final(self)@.header == old(self)@.header,
            final(self)@.data.len() == old(self)@.data.len(),
            forall|i: int|
                0 <= i < old(self)@.data.len() && outside_headers(
                    lists_freed(old(self)@.data, list_off),
                    i,
                ) ==> #[trigger] final(self)@.data[i] == old(self)@.data[i],
            r is Ok && frees_ready(old(self)@, lists_freed(old(self)@.data, list_off)) ==> frees_keep_tiles(
                old(self)@,
                final(self)@,
                lists_freed(old(self)@.data, list_off),
            ),
            (list_off != 0 && list_off != FREE ==> crate::cell::cell_payload_spec(old(self)@.data, list_off) is Ok)
                && (forall|k: int|
                0 <= k < lists_freed(old(self)@.data, list_off).len() ==> #[trigger] lists_freed(
                    old(self)@.data,
                    list_off,
                )[k] + 0x1004 <= old(self)@.data.len()) ==> r is Ok,
            list_off == 0 || list_off == FREE ==> r is Ok && final(self)@ == old(self)@,
            list_off != 0 && list_off != FREE ==> match crate::cell::cell_payload_spec(
                old(self)@.data,
                list_off,
            ) {
                Err(e) => r == Err::<(), RegError>(e) && final(self)@ == old(self)@,
                Ok(_) => match frees_spec(
                    old(self)@.data,
                    lists_freed(old(self)@.data, list_off),
                    old(self)@.header.hive_bins_size,
                ) {
                    Ok(d2) => r is Ok && final(self)@.data == d2,
                    Err(e) => r == Err::<(), RegError>(e),
                },
            },
    {
        proof {
            lemma_wf_kept(old(self)@, self.data@, self.header);
        }
        if list_off == FREE || list_off == 0 {
            proof {
                assert(self@ == old(self)@);
                assert forall|o: u32|
                    used_tile(self@.data, o + 0x1000) && !lists_freed(self@.data, list_off).contains(o) implies #[trigger] used_tile(
                    self@.data,
                    o + 0x1000,
                ) && crate::tiling::size_at(self@.data, o + 0x1000) == crate::tiling::size_at(
                    self@.data,
                    o + 0x1000,
                ) by {}
            }
            return Ok(());
        }
        let ghost d = self.data@;
        let ghost fs = lists_freed(d, list_off);
        let ghost ready = frees_ready(old(self)@, fs);
        let ghost owed = crate::cell::cell_payload_spec(d, list_off) is Ok && (forall|k: int|
            0 <= k < fs.len() ==> #[trigger] fs[k] + 0x1004 <= d.len());
        let sublists: Vec<u32> = {
            let p = crate::cell::cell_payload(self.data.as_slice(), list_off)?;
            if p.len() >= 4 && p[0] == 0x72u8 && p[1] == 0x69u8 {
                let count = crate::bytes::rd16(p, 2) as u64;
                crate::cell::read_offsets(p, 4, 4, count)
            } else {
                Vec::new()
            }
        };
        proof {
            assert(fs == sublists@.push(list_off));
            assert(fs.take(0) =~= Seq::<u32>::empty());
        }
        let mut i: usize = 0;
        while i < sublists.len()
            invariant
                i <= sublists@.len(),
                fs == sublists@.push(list_off),
                d == old(self)@.data,
                fs == lists_freed(d, list_off),
                write_kept(old(self)@, self@),
                self@.header == old(self)@.header,
                self@.data.len() == d.len(),
                forall|x: int|
                    0 <= x < d.len() && outside_headers(fs.take(i as int), x) ==> #[trigger] self@.data[x]
                        == d[x],
                ready == frees_ready(old(self)@, fs),
                ready ==> frees_keep_tiles(old(self)@, self@, fs.take(i as int)),
                frees_spec(d, fs.take(i as int), old(self)@.header.hive_bins_size) == Ok::<
                    Seq<u8>,
                    RegError,
                >(self@.data),
                owed == (crate::cell::cell_payload_spec(d, list_off) is Ok && (forall|k: int|
                    0 <= k < fs.len() ==> #[trigger] fs[k] + 0x1004 <= d.len())),
                list_off != 0 && list_off != FREE,
            decreases sublists@.len() - i,
        {
            let ghost before = self@;
            proof {
                if ready {
                    lemma_frees_next(old(self)@, before, fs, i as int);
                }
            }
            proof {
                if owed {
                    assert(fs[i as int] == sublists@[i as int]);
                }
            }
            let fr = self.free_cell(sublists[i]);
            proof {
                reveal(freed_as);
                assert(fs.take(i + 1).drop_last() =~= fs.take(i as int));
                assert(fs.take(i + 1).last() == sublists@[i as int]);
                if fr is Err {
                    lemma_frees_err(d, fs, i + 1, old(self)@.header.hive_bins_size);
                }
            }
            if let Err(e) = fr {
                return Err(e);
            }
            proof {
                if ready {
                    assert(fs[i as int] == sublists@[i as int]);
                    lemma_frees_compose(old(self)@, before, self@, fs, i as int);
                }
                lemma_keeps_base_trans(old(self)@.data, before.data, self@.data);
                assert forall|x: int|
                    0 <= x < d.len() && outside_headers(fs.take(i + 1), x) implies #[trigger] self@.data[x]
                        == d[x] by {
                    assert(fs.take(i + 1)[i as int] == sublists@[i as int]);
                    lemma_outside_prefix(fs.take(i + 1), i as int, x);
                    assert(fs.take(i + 1).take(i as int) =~= fs.take(i as int));
                }
            }
            i = i + 1;
        }
        let ghost before = self@;
        proof {
            if ready {
                lemma_frees_next(old(self)@, before, fs, sublists@.len() as int);
            }
        }
        proof {
            if owed {
                assert(fs[sublists@.len() as int] == list_off);
            }
        }
        let r = self.free_cell(list_off);
        proof {
            reveal(freed_as);
            let n = sublists@.len() as int;
            assert(fs.take(n + 1) =~= fs);
            assert(fs.drop_last() =~= fs.take(n));
            assert(fs.last() == list_off);
            if ready && r is Ok {
                let n = sublists@.len() as int;
                assert(fs[n] == list_off);
                lemma_frees_compose(old(self)@, before, self@, fs, n);
                assert(fs.take(n + 1) =~= fs);
            }
            lemma_keeps_base_trans(old(self)@.data, before.data, self@.data);
            assert forall|x: int|
                0 <= x < d.len() && outside_headers(fs, x) implies #[trigger] self@.data[x] == d[x] by {
                let n = sublists@.len() as int;
                assert(fs[n] == list_off);
                lemma_outside_prefix(fs, n, x);
            }
        }
        r
    }

    /// The (name, offset) entries of the subkeys of the key node at `parent`.
    fn child_entries(&self, parent: u32) -> (r: Result<Vec<(String, u32)>>)
        ensures
            match child_entries_spec(self@.data, parent) {
                Ok(s) => r matches Ok(v) && entries_view(v@) == s,
                Err(e) => r matches Err(x) && x == e,
            },
    {
        let nk = read_key_node(self.data.as_slice(), parent)?;
        let offs = subkey_offsets(self.data.as_slice(), nk.subkey_list_offset)?;
        let ghost d = self@.data;
        let mut out: Vec<(String, u32)> = Vec::new();
        let mut i: usize = 0;
        proof {
            assert(offs@.skip(0) =~= offs@);
            assert(entries_view(out@) =~= Seq::<(Seq<char>, u32)>::empty());
            match entries_of(d, offs@) {
                Ok(t) => {
                    assert(Seq::<(Seq<char>, u32)>::empty() + t =~= t);
                },
                _ => {},
            }
        }
        while i < offs.len()
            invariant
                d == self.data@,
                i <= offs@.len(),
                child_entries_spec(d, parent) == entries_of(d, offs@),
                entries_of(d, offs@) == prepend_entries(
                    entries_view(out@),
                    entries_of(d, offs@.skip(i as int)),
                ),
            decreases offs@.len() - i,
        {
            let ghost rest = offs@.skip(i as int);
            proof {
                assert(rest[0] == offs@[i as int]);
                assert(rest.skip(1) =~= offs@.skip(i + 1));
            }
            let child = match read_key_node(self.data.as_slice(), offs[i]) {
                Ok(c) => c,
                Err(e) => {
                    proof {
                        assert(entries_of(d, rest) == Err::<Seq<(Seq<char>, u32)>, RegError>(e));
                    }
                    return Err(e);
                },
            };
            let ghost before = entries_view(out@);
            let ghost item = (child.name@, offs@[i as int]);
            out.push((child.name, offs[i]));
            i = i + 1;
            proof {
                assert(entries_view(out@) =~= before.push(item));
                match entries_of(d, offs@.skip(i as int)) {
                    Ok(t) => {
                        assert(before.push(item) + t =~= before + (seq![item] + t));
                    },
                    _ => {},
                }
            }
        }
        proof {
            assert(offs@.skip(i as int) =~= Seq::<u32>::empty());
            let v = entries_view(out@);
            assert(v + Seq::<(Seq<char>, u32)>::empty() =~= v);
        }
        Ok(out)
    }
}

} // verus!

verus! {

/// The stored bytes of `name`, behind a node header of `head` bytes, fit in
/// the address space.
pub open spec fn name_fits(name: Seq<char>, head: int) -> bool {
    head + crate::cell::name_to_bytes(name, vstd::utf8::is_ascii_chars(name)).len() <= usize::MAX
}

/// Every component of `path` fits as a key name.
pub open spec fn path_names_fit(path: Seq<char>) -> bool {
    forall|i: int| 0 <= i < path_parts(path).len() ==> name_fits(#[trigger] path_parts(path)[i], 76)
}

impl Hive {
    /// Creates a subkey `name_new` under `parent`, inserted in sorted
    /// position; returns the new key node's offset.
    #[verifier::spinoff_prover]
    #[verifier::rlimit(60)]
    fn insert_subkey(&mut self, parent: u32, name_new: &str) -> (r: Result<u32>)
        requires
            hive_wf(old(self)@),
            old(self)@.data.len() <= crate::hbin::max_hive_len(),
            name_fits(name_new@, 76),
        ensures
            write_kept(old(self)@, final(self)@),
            r matches Ok(o) ==> (insert_ready(old(self)@, parent, name_new@) ==> insert_done(
                old(self)@,
                final(self)@,
                parent,
                name_new@,
                o,
            )),
            r matches Ok(o) ==> (insert_ready(old(self)@, parent, name_new@) ==> insert_listing(
                old(self)@.data,
                final(self)@.data,
                parent,
                name_new@,
                o,
            )),
            r matches Ok(o) ==> (insert_ready(old(self)@, parent, name_new@) ==> new_key_at(
                old(self)@.data,
                final(self)@.data,
                parent,
                name_new@,
                o,
            )),
            r is Ok && insert_ready(old(self)@, parent, name_new@) ==> refcount_bumped(
                old(self)@.data,
                final(self)@.data,
                key_node_at(old(self)@.data, parent)->Ok_0.security_offset,
            ),
            insert_ready(old(self)@, parent, name_new@) && crate::cell::incr_refcount_spec(
                old(self)@.data,
                key_node_at(old(self)@.data, parent)->Ok_0.security_offset,
            ) is Ok && insert_room(old(self)@.data.len() as int) ==> r is Ok
                && crate::cell::incr_refcount_spec(
                final(self)@.data,
                key_node_at(old(self)@.data, parent)->Ok_0.security_offset,
            ) is Ok,
    {
        proof {
            lemma_wf_kept(old(self)@, self.data@, self.header);
            if insert_ready(old(self)@, parent, name_new@) {
                lemma_insert_ready_node(old(self)@, parent, name_new@);
            }
        }
        let parent_nk = read_key_node(self.data.as_slice(), parent)?;

        // Security inherited from the parent (reference count incremented).
        let security = parent_nk.security_offset;
        let ghost s0 = self@;
        let ghost owed = insert_ready(s0, parent, name_new@) && crate::cell::incr_refcount_spec(
            s0.data,
            security,
        ) is Ok && insert_room(s0.data.len() as int);
        self.incr_refcount(security)?;

        // New key node.
        let nk_payload = crate::cell::build_key_node(name_new, parent, security);
        let ghost s1 = self@;
        proof {
            if owed {
                lemma_insert_ready_node(s0, parent, name_new@);
                lemma_incr_len(s0.data, security);
                lemma_key_node_bytes_len(name_new@, parent, security);
                lemma_room_within(s1.data.len() as int, nk_payload@.len() as int);
                assert(room_fits(s1.data.len() as int, nk_payload@.len() as int));
            }
        }
        let new_off = self.alloc_write(nk_payload.as_slice())?;
        proof {
            lemma_keeps_base_trans(s0.data, s1.data, self@.data);
        }
        let ghost s2 = self@;
        proof {
            if insert_ready(s0, parent, name_new@) {
                lemma_insert_step1(s0, s1, s2, parent, name_new@, parent_nk@);
                assert(child_entries_spec(s2.data, parent) is Ok);
            }
        }

        // Existing entries and the new one, sorted.
        let mut entries = self.child_entries(parent)?;
        let ghost es = entries_view(entries@);
        entries.push((name_new.to_owned(), new_off));
        proof {
            assert(entries_view(entries@) =~= es.push((name_new@, new_off)));
        }
        let entries = sort_entries(entries);
        let ghost ss = entries_view(entries@);
        proof {
            vstd::seq_lib::to_multiset_len(ss);
            vstd::seq_lib::to_multiset_len(es.push((name_new@, new_off)));
            if owed {
                assert(entries@.len() < 0x10000);
            }
        }

        // Leaf format kept (an ri list becomes a flat lf).
        let kind = if parent_nk.subkey_list_offset == FREE || parent_nk.subkey_list_offset == 0 {
            crate::cell::LeafKind::Lf
        } else {
            crate::cell::leaf_kind(self.data.as_slice(), parent_nk.subkey_list_offset)?
        };
        let n = entries.len();
        if n > 0x0FFF_FFFF {
            // No cell can hold such a list.
            let room = room_for(self.data.len());
            let size: usize = if kind == crate::cell::LeafKind::Li {
                if n <= (usize::MAX - 4) / 4 { 4 + 4 * n } else { usize::MAX }
            } else {
                if n <= (usize::MAX - 4) / 8 { 4 + 8 * n } else { usize::MAX }
            };
            return Err(RegError::ValueTooLarge { size, max: room as usize });
        }
        let list_payload = crate::cell::build_leaf_list(kind, entries.as_slice());
        proof {
            assert(entries@.map_values(|e: (String, u32)| (e.0@, e.1)) =~= ss);
            if owed {
                assert(s2.data.len() <= s1.data.len() + nk_payload@.len() + 0x2000);
                lemma_room_within(s2.data.len() as int, list_payload@.len() as int);
                assert(room_fits(s2.data.len() as int, list_payload@.len() as int));
            }
        }
        let new_list = self.alloc_write(list_payload.as_slice())?;
        proof {
            lemma_keeps_base_trans(s0.data, s2.data, self@.data);
        }

        // Free the old list (and its leaf lists if it was an ri).
        let ghost s3 = self@;
        proof {
            if insert_ready(s0, parent, name_new@) {
                lemma_insert_step2(s0, s2.data, s3.data, parent, name_new@, parent_nk@);
            }
        }
        self.free_subkey_list(parent_nk.subkey_list_offset)?;
        proof {
            lemma_keeps_base_trans(s0.data, s3.data, self@.data);
        }

        // Update the parent.
        let ghost s4 = self@;
        proof {
            if insert_ready(s0, parent, name_new@) {
                lemma_insert_step3(
                    s0,
                    s3.data,
                    s4.data,
                    parent,
                    name_new@,
                    parent_nk@,
                    new_list,
                    #[verifier::truncate] (n as u32),
                );
            }
        }
        self.set_field(parent, crate::cell::NK_SUBKEY_LIST, new_list)?;
        proof {
            lemma_keeps_base_trans(s0.data, s4.data, self@.data);
        }
        let ghost s5 = self@;
        self.set_field(parent, crate::cell::NK_SUBKEY_COUNT, #[verifier::truncate] (n as u32))?;
        proof {
            lemma_keeps_base_trans(s0.data, s5.data, self@.data);
            if insert_ready(s0, parent, name_new@) {
                assert(crate::cell::incr_refcount_spec(self@.data, security) is Ok && refcount_bumped(
                    s0.data,
                    self@.data,
                    security,
                )) by {
                    lemma_insert_sk(
                        s0,
                        s1.data,
                        s2.data,
                        s3.data,
                        s4.data,
                        s5.data,
                        self@.data,
                        parent,
                        name_new@,
                        parent_nk@,
                        new_list,
                        #[verifier::truncate] (n as u32),
                    );
                }
            }
            if insert_ready(s0, parent, name_new@) {
                assert(insert_done(s0, self@, parent, name_new@, new_off) && insert_listing(
                    s0.data,
                    self@.data,
                    parent,
                    name_new@,
                    new_off,
                )) by {
                    lemma_insert_law(
                        s0,
                        s1,
                        s2,
                        s3,
                        s4,
                        s5,
                        self@,
                        parent,
                        name_new@,
                        new_off,
                        new_list,
                        es,
                        ss,
                        list_payload@,
                        kind,
                        #[verifier::truncate] (n as u32),
                    );
                    assert(ss.len() == n);
                }
                lemma_insert_done_node(s0, self@, parent, name_new@, new_off);
            }
        }
        Ok(new_off)
    }
}

} // verus!

verus! {

impl Hive {
    /// Creates the missing keys along `path` and returns the last one. Each
    /// created key inherits its parent's security descriptor and is inserted
    /// in sorted position in the parent's subkey list.
    #[verifier::spinoff_prover]
    #[verifier::rlimit(40)]
    pub fn create_key(&mut self, path: &str) -> (r: Result<KeyNode>)
        requires
            old(self).wf(),
            old(self)@.data.len() <= crate::hbin::max_hive_len(),
            path_names_fit(path@),
        ensures
            final(self).wf(),
            final(self)@.data.len() <= crate::hbin::max_hive_len(),
            old(self)@.header.primary_sequence != old(self)@.header.secondary_sequence ==> r
                == Err::<KeyNode, RegError>(RegError::DirtyHive) && final(self)@ == old(self)@,
            old(self)@.header.primary_sequence == old(self)@.header.secondary_sequence ==> {
                &&& write_kept(old(self)@, final(self)@)
                &&& match resolve_spec(old(self)@, path@) {
                    Lookup::Found(off) => final(self)@ == old(self)@ && match key_node_at(
                        old(self)@.data,
                        off,
                    ) {
                        Ok(v) => r matches Ok(k) && shows_node(k, v, off),
                        Err(e) => r matches Err(x) && x == e,
                    },
                    Lookup::Fails(e) => r matches Err(x) && x == e && final(self)@ == old(self)@,
                    _ => true,
                }
            },
            r matches Ok(k) ==> (create_ready(old(self)@, path@) ==> resolve_spec(final(self)@, path@)
                == Lookup::Found(k.node_offset())),
            r matches Ok(k) ==> (create_ready(old(self)@, path@) ==> match first_missing(
                old(self)@.data,
                old(self)@.header.root_cell_offset,
                path_parts(path@),
            ) {
                Some((j, c)) => j == path_parts(path@).len() - 1 ==> {
                    &&& insert_listing(
                        old(self)@.data,
                        final(self)@.data,
                        c,
                        path_parts(path@)[j],
                        k.node_offset(),
                    )
                    &&& new_key_at(
                        old(self)@.data,
                        final(self)@.data,
                        c,
                        path_parts(path@)[j],
                        k.node_offset(),
                    )
                    &&& refcount_bumped(
                        old(self)@.data,
                        final(self)@.data,
                        key_node_at(old(self)@.data, c)->Ok_0.security_offset,
                    )
                },
                None => true,
            }),
            r is Ok && create_ready(old(self)@, path@) && resolve_spec(old(self)@, path@) is NoKey
                ==> sorted_under(final(self)@, path_parts(path@).drop_last()),
            r is Ok && create_ready(old(self)@, path@) ==> forall|o: u32|
                #[trigger] create_keeps(old(self)@, path@)(o) ==> cell_kept(
                    old(self)@.data,
                    final(self)@.data,
                    o,
                ),
            r matches Ok(k) ==> (create_ready(old(self)@, path@) && resolve_spec(old(self)@, path@) is NoKey
                ==> value_cells_apart(final(self)@, k.node_offset()) && path_apart(
                final(self)@,
                path@,
                k.node_offset(),
            )),
            resolve_spec(old(self)@, path@) is NoKey && old(self)@.header.primary_sequence == old(
                self,
            )@.header.secondary_sequence && create_ready(old(self)@, path@) && create_security_ok(
                old(self)@,
                path@,
            ) && old(self)@.data.len() + path_parts(path@).len() * 0x10_0000 <= 0x1_0000_1000 ==> r is Ok,
    {
        self.guard_writable()?;
        let parts = split_path(path);
        let ghost ps = parts@.map_values(|s: String| s@);
        let ghost h0 = self@;
        let ghost root = h0.header.root_cell_offset;
        let ghost law = create_ready(h0, path@);
        let ghost owed = resolve_spec(h0, path@) is NoKey && law && create_security_ok(h0, path@)
            && h0.data.len() + path_parts(path@).len() * 0x10_0000 <= 0x1_0000_1000;
        let ghost mut inserted = false;
        let ghost mut sk_g: u32 = 0;
        let ghost mut first_i: int = 0;
        let ghost mut parent_g: u32 = 0;
        let mut current = self.header.root_cell_offset;
        let mut i: usize = 0;
        proof {
            assert(ps.skip(0) =~= ps);
            assert(ps.take(0) =~= Seq::<Seq<char>>::empty());
            lemma_wf_kept(h0, h0.data, h0.header);
        }
        while i < parts.len()
            invariant
                h0 == old(self)@,
                root == h0.header.root_cell_offset,
                law == create_ready(h0, path@),
                hive_wf(h0),
                h0.data.len() <= crate::hbin::max_hive_len(),
                h0.header.primary_sequence == h0.header.secondary_sequence,
                ps == parts@.map_values(|s: String| s@),
                ps == path_parts(path@),
                path_names_fit(path@),
                i <= parts@.len(),
                write_kept(h0, self@),
                !inserted ==> self@ == h0 && resolve_spec(h0, path@) == resolve_from(
                    h0.data,
                    current,
                    ps.skip(i as int),
                ),
                !inserted ==> resolve_from(h0.data, root, ps.take(i as int)) == Lookup::<u32>::Found(
                    current,
                ) && first_missing(h0.data, root, ps) == missing_shift(
                    first_missing(h0.data, current, ps.skip(i as int)),
                    i as int,
                ),
                inserted ==> resolve_spec(h0, path@) is NoKey,
                inserted && law ==> create_chain(self@, ps.take(i as int), current, sk_g)
                    && names_fit_from(ps, i as int) && i > 0 && sorted_under(self@, ps.take(i - 1)),
                inserted && law ==> forall|o: u32|
                    #[trigger] create_keeps(h0, path@)(o) ==> cell_kept(h0.data, self@.data, o)
                        && used_tile(self@.data, o + 0x1000) && o != current && o != sk_g && is_tile(
                        h0.data,
                        o + 0x1000,
                    ),
                owed == (resolve_spec(h0, path@) is NoKey && law && create_security_ok(h0, path@)
                    && h0.data.len() + path_parts(path@).len() * 0x10_0000 <= 0x1_0000_1000),
                owed && inserted ==> crate::cell::incr_refcount_spec(self@.data, sk_g) is Ok,
                owed ==> self@.data.len() + (ps.len() - i) * 0x10_0000 <= 0x1_0000_1000,
                inserted ==> 0 <= first_i < i,
                inserted && law ==> first_missing(h0.data, root, ps) == Some((first_i, parent_g)),
                inserted && law && i == first_i + 1 ==> insert_listing(
                    h0.data,
                    self@.data,
                    parent_g,
                    ps[first_i],
                    current,
                ) && refcount_bumped(h0.data, self@.data, sk_g) && new_key_at(
                    h0.data,
                    self@.data,
                    parent_g,
                    ps[first_i],
                    current,
                ) && sk_g == key_node_at(h0.data, parent_g)->Ok_0.security_offset,
            decreases parts@.len() - i,
        {
            let ghost rest = ps.skip(i as int);
            proof {
                assert(rest[0] == parts@[i as int]@);
                assert(rest.skip(1) =~= ps.skip(i + 1));
                assert(name_fits(ps[i as int], 76));
                assert(self@.header.root_cell_offset == root);
                if inserted && law {
                    lemma_chain_ready(self@, ps.take(i as int), current, sk_g, ps[i as int]);
                }
                if owed && !inserted {
                    assert(resolve_from(h0.data, current, rest) is NoKey);
                }
            }
            let ghost before = self@;
            let ghost cur0 = current;
            current = match self.find_child(current, parts[i].as_str())? {
                Some(off) => {
                    proof {
                        if !inserted {
                            lemma_missing_next(h0.data, root, ps, cur0, i as int, off);
                        }
                    }
                    off
                },
                None => {
                    proof {
                        if !inserted {
                            lemma_missing_here(h0.data, root, ps, cur0, i as int);
                            if law {
                                reveal(create_ready);
                            }
                        }
                    }
                    proof {
                        if law {
                            lemma_keeps_ready(h0, before, path@, cur0, sk_g, inserted);
                        }
                        if owed && !inserted {
                            assert(first_missing(h0.data, root, ps) == Some((i as int, cur0)));
                        }
                    }
                    let off = self.insert_subkey(current, parts[i].as_str())?;
                    proof {
                        if law {
                            lemma_insert_done_len(before, self@, cur0, ps[i as int], off);
                        }
                        lemma_keeps_base_trans(h0.data, before.data, self@.data);
                        if law {
                            lemma_create_step(before, self@, ps.take(i as int), cur0, ps[i as int], off);
                            assert(ps.take(i as int).push(ps[i as int]) =~= ps.take(i + 1));
                            lemma_keeps_step(h0, before, self@, cur0, ps[i as int], off, create_keeps(h0, path@));
                            if !inserted {
                                sk_g = key_node_at(before.data, cur0)->Ok_0.security_offset;
                            }
                        }
                        if !inserted {
                            first_i = i as int;
                            parent_g = cur0;
                        }
                        inserted = true;
                    }
                    off
                },
            };
            i = i + 1;
        }
        let r = self.node_at(current);
        proof {
            assert(ps.take(i as int) =~= ps);
            assert(self@.header.root_cell_offset == root);
            if inserted && law {
                assert(ps.take(i - 1) =~= ps.drop_last());
                lemma_created_apart(self@, path@, current, sk_g);
            }
            if !inserted {
                assert forall|o: u32| #[trigger] create_keeps(h0, path@)(o) implies cell_kept(
                    h0.data,
                    self@.data,
                    o,
                ) by {
                    lemma_keeps_self(h0, path@, o);
                }
            }
        }
        r
    }
}

} // verus!

verus! {

/// Whether some value node among `offs` is named `name`; the error met
/// reading them otherwise.
pub open spec fn has_value_named(d: Seq<u8>, offs: Seq<u32>, name: Seq<char>) -> Result<bool>
    decreases offs.len(),
{
    if offs.len() == 0 {
        Ok(false)
    } else {
        match value_node_at(d, offs[0]) {
            Err(e) => Err(e),
            Ok(vk) => match has_value_named(d, offs.skip(1), name) {
                Err(e) => Err(e),
                Ok(b) => Ok(b || name_order(vk.name, name) == 0),
            },
        }
    }
}

/// `b` or'ed into a result.
pub open spec fn or_found(b: bool, r: Result<bool>) -> Result<bool> {
    match r {
        Ok(x) => Ok(b || x),
        Err(e) => Err(e),
    }
}

impl Hive {
    /// Overwrites entry `i` of the value list at `list_off` with `v`.
    fn write_list_entry(&mut self, list_off: u32, i: usize, v: u32) -> (r: Result<()>)
        requires
            hive_wf(old(self)@),
            old(self)@.data.len() <= crate::hbin::max_hive_len(),
        ensures
            write_kept(old(self)@, final(self)@),
            final(self)@.header == old(self)@.header,
            r is Err ==> final(self)@ == old(self)@,
            r is Ok ==> (crate::hbin::payload_range(old(self)@.data, list_off) matches Ok((a, b)) && 4
                * i + 4 <= b - a && final(self)@.data == crate::bytes::put_u32(
                old(self)@.data,
                a + 4 * i,
                v,
            )),
            (crate::hbin::payload_range(old(self)@.data, list_off) matches Ok((a, b)) && 4 * i + 4
                <= b - a) ==> r is Ok,
    {
        let ghost d = self.data@;
        let p = match crate::hbin::payload_mut(self.data.as_mut_slice(), list_off) {
            Ok(p) => p,
            Err(e) => {
                proof {
                    lemma_wf_kept(old(self)@, self.data@, self.header);
                }
                return Err(e);
            },
        };
        let ghost (a, b) = crate::hbin::payload_range(d, list_off).unwrap();
        if i > p.len() / 4 || p.len() - 4 * i < 4 {
            proof {
                crate::bytes::lemma_splice_same(d, a, b);
                lemma_wf_kept(old(self)@, self.data@, self.header);
            }
            return Err(RegError::CorruptCell { offset: list_off as usize });
        }
        crate::bytes::wr(p, 4 * i, v);
        proof {
            crate::bytes::lemma_put_u32_splice(d, a, b, 4 * i as int, v);
            lemma_put_keeps_base(d, a + 4 * i, v);
            lemma_wf_kept(old(self)@, self.data@, self.header);
        }
        Ok(())
    }

    /// Sets (creates or replaces) the value `value_name` under an existing
    /// key.
    #[verifier::spinoff_prover]
    #[verifier::rlimit(100)]
    pub fn set_value(&mut self, key_path: &str, value_name: &str, value: RegValue) -> (r: Result<
        (),
    >)
        requires
            old(self).wf(),
            old(self)@.data.len() <= crate::hbin::max_hive_len(),
            name_fits(value_name@, 20),
        ensures
            final(self).wf(),
            final(self)@.data.len() <= crate::hbin::max_hive_len(),
            old(self)@.header.primary_sequence != old(self)@.header.secondary_sequence ==> r
                == Err::<(), RegError>(RegError::DirtyHive) && final(self)@ == old(self)@,
            old(self)@.header.primary_sequence == old(self)@.header.secondary_sequence ==> {
                &&& write_kept(old(self)@, final(self)@)
                &&& match resolve_spec(old(self)@, key_path@) {
                    Lookup::Found(_) => crate::value::value_bytes(value@).len()
                        > crate::cell::BIG_DATA_LIMIT ==> r == Err::<(), RegError>(
                        RegError::ValueTooLarge {
                            size: crate::value::value_bytes(value@).len() as usize,
                            max: crate::cell::BIG_DATA_LIMIT,
                        },
                    ) && final(self)@ == old(self)@,
                    Lookup::Fails(e) => r matches Err(x) && x == e && final(self)@ == old(self)@,
                    Lookup::NoKey => r matches Err(RegError::KeyNotFound(p)) && p@ == key_path@
                        && final(self)@ == old(self)@,
                    Lookup::NoValue => false,
                }
            },
            r is Ok ==> resolve_spec(old(self)@, key_path@) is Found
                && crate::value::value_bytes(value@).len() <= crate::cell::BIG_DATA_LIMIT,
            resolve_spec(old(self)@, key_path@) matches Lookup::Found(nk_off) ==> (
            old(self)@.header.primary_sequence == old(self)@.header.secondary_sequence
                && crate::value::value_bytes(value@).len() <= crate::cell::BIG_DATA_LIMIT
                && value_cells_apart(old(self)@, nk_off) && crate::cell::name_to_bytes(
                value_name@,
                vstd::utf8::is_ascii_chars(value_name@),
            ).len() <= 0xFFFF && value_slot_reads(old(self)@.data, nk_off, value_name@)
                && set_room(old(self)@.data, nk_off) ==> r is Ok),
            resolve_spec(old(self)@, key_path@) matches Lookup::Found(nk_off) ==> (r is Ok
                && value_cells_apart(old(self)@, nk_off) && crate::value::survives_encoding(value@)
                && crate::cell::name_to_bytes(value_name@, vstd::utf8::is_ascii_chars(value_name@)).len()
                <= 0xFFFF ==> value_under(final(self)@.data, nk_off, value_name@) == Some(
                Lookup::Found(value@),
            )),
            resolve_spec(old(self)@, key_path@) matches Lookup::Found(nk_off) ==> (r is Ok
                && value_cells_apart(old(self)@, nk_off) && crate::cell::name_to_bytes(
                value_name@,
                vstd::utf8::is_ascii_chars(value_name@),
            ).len() <= 0xFFFF ==> keeps_other_cells(old(self)@.data, final(self)@.data, nk_off)
                && key_same(old(self)@.data, final(self)@.data, nk_off)),
            resolve_spec(old(self)@, key_path@) matches Lookup::Found(nk_off) ==> (r is Ok
                && value_cells_apart(old(self)@, nk_off) && crate::cell::name_to_bytes(
                value_name@,
                vstd::utf8::is_ascii_chars(value_name@),
            ).len() <= 0xFFFF ==> values_after_set(old(self)@.data, final(self)@.data, nk_off, value_name@)),
            resolve_spec(old(self)@, key_path@) matches Lookup::Found(nk_off) ==> (r is Ok
                && value_cells_apart(old(self)@, nk_off) && crate::cell::name_to_bytes(
                value_name@,
                vstd::utf8::is_ascii_chars(value_name@),
            ).len() <= 0xFFFF && final(self)@.data.len() <= 0x8000_0000 ==> set_nodes(
                old(self)@.data,
                final(self)@.data,
                nk_off,
                value_name@,
            )),
            resolve_spec(old(self)@, key_path@) matches Lookup::Found(nk_off) ==> (r is Ok
                && value_cells_apart(old(self)@, nk_off) && crate::cell::name_to_bytes(
                value_name@,
                vstd::utf8::is_ascii_chars(value_name@),
            ).len() <= 0xFFFF ==> final(self)@.data.len() <= old(self)@.data.len() + set_growth(
                old(self)@.data,
                nk_off,
                value_name@,
                crate::value::value_bytes(value@).len() as int,
            )),
            resolve_spec(old(self)@, key_path@) matches Lookup::Found(nk_off) ==> (r is Ok
                && value_cells_apart(old(self)@, nk_off) && path_apart(old(self)@, key_path@, nk_off)
                && crate::value::survives_encoding(value@) && crate::cell::name_to_bytes(
                value_name@,
                vstd::utf8::is_ascii_chars(value_name@),
            ).len() <= 0xFFFF ==> get_value_spec(final(self)@, key_path@, value_name@) == Some(
                Lookup::Found(value@),
            )),
            resolve_spec(old(self)@, key_path@) matches Lookup::Found(nk_off) ==> (r is Ok
                && value_cells_apart(old(self)@, nk_off) && crate::cell::name_to_bytes(
                value_name@,
                vstd::utf8::is_ascii_chars(value_name@),
            ).len() <= 0xFFFF ==> forall|other: Seq<char>|
                name_order(other, value_name@) != 0 && value_reads_apart(old(self)@.data, nk_off, other)
                    ==> #[trigger] value_under(final(self)@.data, nk_off, other) == value_under(
                    old(self)@.data,
                    nk_off,
                    other,
                )),
            resolve_spec(old(self)@, key_path@) matches Lookup::Found(nk_off) ==> (r is Ok
                && value_cells_apart(old(self)@, nk_off) && crate::cell::name_to_bytes(
                value_name@,
                vstd::utf8::is_ascii_chars(value_name@),
            ).len() <= 0xFFFF && final(self)@.data.len() <= 0x8000_0000 ==> value_cells_apart(
                final(self)@,
                nk_off,
            )
                && (path_apart(old(self)@, key_path@, nk_off) ==> path_apart(
                final(self)@,
                key_path@,
                nk_off,
            ))),
    {
        self.guard_writable()?;
        let nk_off = self.resolve(key_path)?;
        let ghost h0 = self@;
        let ghost cells = value_cells_apart(h0, nk_off) && crate::cell::name_to_bytes(
            value_name@,
            vstd::utf8::is_ascii_chars(value_name@),
        ).len() <= 0xFFFF;
        let ghost law = cells && crate::value::survives_encoding(value@);
        let ghost owed = cells && value_slot_reads(h0.data, nk_off, value_name@) && set_room(
            h0.data,
            nk_off,
        );
        proof {
            lemma_wf_kept(h0, h0.data, h0.header);
        }

        // The encoded data.
        let bytes = value.to_bytes();
        if bytes.len() > crate::cell::BIG_DATA_LIMIT {
            return Err(
                RegError::ValueTooLarge { size: bytes.len(), max: crate::cell::BIG_DATA_LIMIT },
            );
        }
        let ty = value.reg_type();
        let size = bytes.len() as u32;
        let inline = bytes.len() <= 4;
        proof {
            if cells {
                reveal(value_cells_apart);
            }
            if owed {
                lemma_room_within(h0.data.len() as int, bytes@.len() as int);
            }
        }
        let data_field = if inline {
            crate::value::read_u32_le(bytes.as_slice())
        } else {
            self.alloc_write(bytes.as_slice())?
        };
        let ghost s1 = self@;
        let ghost nb = crate::cell::name_to_bytes(value_name@, vstd::utf8::is_ascii_chars(value_name@)).len();
        proof {
            assert(s1.data.len() <= h0.data.len() + bytes@.len() + 0x2000);
        }
        let vk_payload = crate::cell::build_value_node(value_name, ty, size, data_field, inline);
        proof {
            if owed {
                assert(h0.data.len() <= s1.data.len() <= h0.data.len() + 0x6000);
                assert(vk_payload@.len() == 20 + crate::cell::name_to_bytes(
                    value_name@,
                    vstd::utf8::is_ascii_chars(value_name@),
                ).len());
                lemma_room_within(s1.data.len() as int, vk_payload@.len() as int);
            }
        }
        let new_vk = self.alloc_write(vk_payload.as_slice())?;
        let ghost s2 = self@;
        proof {
            assert(vk_payload@.len() == 20 + nb);
            assert(s2.data.len() <= h0.data.len() + bytes@.len() + nb + 0x4020);
        }
        let ghost vkv = crate::cell::ValueNodeView {
            name: value_name@,
            ty,
            data_size: size,
            data_offset: data_field,
            inline,
        };
        proof {
            lemma_keeps_base_trans(h0.data, s1.data, self@.data);
            if cells {
                assert(keeps_used(h0.data, s1.data));
                crate::tiling::lemma_keeps_used_trans(h0.data, s1.data, s2.data);
                lemma_stored_type(value@);
                lemma_new_value_node(s2.data, new_vk, value_name@, ty, size, data_field, inline);
                if !inline {
                    lemma_used_kept(s1.data, s2.data, data_field);
                    lemma_cell_kept_reads(s1.data, s2.data, data_field);
                    assert(!used_tile(h0.data, data_field + 0x1000));
                    let (x, y) = crate::hbin::payload_range(s1.data, data_field).unwrap();
                    let c = s1.data.subrange(x, y);
                    assert(c.subrange(0, bytes@.len() as int) =~= s1.data.subrange(x, x + bytes@.len()));
                }
                if law {
                    lemma_value_stored(s2.data, vkv, bytes@, value@);
                }
                crate::name::lemma_name_equality(value_name@, value_name@);
                assert(!used_tile(h0.data, new_vk + 0x1000)) by {
                    if used_tile(h0.data, new_vk + 0x1000) {
                        assert(used_tile(s1.data, new_vk + 0x1000));
                    }
                }
            }
        }

        proof {
            if cells {
                lemma_apart_kept(h0, s2.data, nk_off);
            }
        }

        // The existing value list.
        let nk = read_key_node(self.data.as_slice(), nk_off)?;
        let existing = value_offsets(self.data.as_slice(), nk.value_list_offset, nk.value_count)?;
        let ghost ex = existing@;
        proof {
            if cells {
                reveal(write_ready);
                assert(write_ready(h0, s2.data, nk_off, nk@, ex, new_vk, vkv, value_name@));
            }
            assert(ex.skip(0) =~= ex);
        }

        // Replace the value of the same name, if there is one.
        let mut i: usize = 0;
        while i < existing.len()
            invariant
                i <= existing@.len(),
                ex == existing@,
                h0 == old(self)@,
                hive_wf(h0),
                h0.data.len() <= crate::hbin::max_hive_len(),
                h0.header.primary_sequence == h0.header.secondary_sequence,
                resolve_spec(h0, key_path@) == Lookup::<u32>::Found(nk_off),
                crate::value::value_bytes(value@).len() <= crate::cell::BIG_DATA_LIMIT,
                write_kept(h0, self@),
                self@ == s2,
                key_node_at(s2.data, nk_off) == Ok::<KeyNodeView, RegError>(nk@),
                value_list(s2.data, nk.value_list_offset, nk.value_count) == Ok::<
                    Seq<u32>,
                    RegError,
                >(ex),
                forall|k: int| 0 <= k < i ==> #[trigger] other_value(s2.data, ex[k], value_name@),
                cells ==> write_ready(h0, s2.data, nk_off, nk@, ex, new_vk, vkv, value_name@),
                cells ==> tiled(s2.data, s2.header.hive_bins_size),
                owed == (cells && value_slot_reads(h0.data, nk_off, value_name@) && set_room(
                    h0.data,
                    nk_off,
                )),
                owed ==> scan_reads(h0.data, ex.skip(i as int), value_name@),
                h0.data.len() <= s2.data.len(),
                owed ==> s2.data.len() <= h0.data.len() + 0x2_0000,
                cells == (value_cells_apart(h0, nk_off) && crate::cell::name_to_bytes(
                    value_name@,
                    vstd::utf8::is_ascii_chars(value_name@),
                ).len() <= 0xFFFF),
                law == (cells && crate::value::survives_encoding(value@)),
                law ==> value_of(s2.data, vkv) == Some(Ok::<ValueModel, RegError>(value@)),
                nb == crate::cell::name_to_bytes(value_name@, vstd::utf8::is_ascii_chars(value_name@)).len(),
                bytes@ == crate::value::value_bytes(value@),
                s2.data.len() <= h0.data.len() + bytes@.len() + nb + 0x4020,
            decreases existing@.len() - i,
        {
            proof {
                if owed {
                    lemma_scan_next(h0.data, ex, i as int, value_name@);
                    lemma_write_ready(h0, s2.data, nk_off, nk@, ex, new_vk, vkv, value_name@);
                }
            }
            let vk = read_value_node(self.data.as_slice(), existing[i])?;
            if eq_name(vk.name.as_str(), value_name) {
                let ghost ovk = vk@;
                proof {
                    if owed {
                        lemma_list_room(s2.data, nk.value_list_offset, nk.value_count);
                    }
                }
                self.write_list_entry(nk.value_list_offset, i, new_vk)?;
                let ghost s3 = self@;
                proof {
                    lemma_keeps_base_trans(h0.data, s2.data, self@.data);
                    if owed {
                        let (a, b) = crate::hbin::payload_range(s2.data, nk.value_list_offset).unwrap();
                        crate::bytes::lemma_put_u32(s2.data, a + 4 * i, new_vk);
                        lemma_apart_node(h0, nk_off, nk@, ex, i as int);
                        crate::tiling::lemma_tile_bounds(h0.data, existing[i as int] + 0x1000);
                        if data_in_cell(ovk) {
                            crate::tiling::lemma_tile_bounds(h0.data, ovk.data_offset + 0x1000);
                        }
                    }
                }
                self.free_value_storage(&vk)?;
                let ghost s4 = self@;
                proof {
                    lemma_keeps_base_trans(h0.data, s3.data, self@.data);
                }
                let fr = self.free_cell(existing[i]);
                proof {
                    lemma_keeps_base_trans(h0.data, s4.data, self@.data);
                    if cells && fr is Ok {
                        lemma_write_ready(h0, s2.data, nk_off, nk@, ex, new_vk, vkv, value_name@);
                        lemma_make_replace_facts(
                            h0,
                            s2.data,
                            s3.data,
                            s4.data,
                            self@.data,
                            nk_off,
                            nk@,
                            ex,
                            i as int,
                            ovk,
                            new_vk,
                            vkv,
                            value_name@,
                        );
                        lemma_replace_others(
                            h0,
                            s2.data,
                            s3.data,
                            s4.data,
                            self@.data,
                            nk_off,
                            nk@,
                            ex,
                            i as int,
                            ovk,
                            new_vk,
                            vkv,
                            value_name@,
                        );
                        lemma_replace_others_read(
                            h0,
                            s2.data,
                            s3.data,
                            s4.data,
                            self@.data,
                            nk_off,
                            nk@,
                            ex,
                            i as int,
                            ovk,
                            new_vk,
                            vkv,
                            value_name@,
                        );
                    }
                    if cells && fr is Ok {
                        assert(self@.data.len() == s2.data.len());
                    }
                    if cells && fr is Ok {
                        assert(values_after_set(h0.data, self@.data, nk_off, value_name@)) by {
                            lemma_write_ready(h0, s2.data, nk_off, nk@, ex, new_vk, vkv, value_name@);
                            lemma_replace_listing(
                                h0,
                                s2.data,
                                s3.data,
                                s4.data,
                                self@.data,
                                nk_off,
                                nk@,
                                ex,
                                i as int,
                                ovk,
                                new_vk,
                                vkv,
                                value_name@,
                            );
                            lemma_first_named_at(h0.data, s2.data, ex, i as int, value_name@);
                        }
                    }
                    if law && fr is Ok {
                        lemma_replace_law(
                            s2.data,
                            s3.data,
                            s4.data,
                            self@.data,
                            nk_off,
                            nk@,
                            ex,
                            i as int,
                            ovk,
                            new_vk,
                            vkv,
                            value_name@,
                            value@,
                        );
                        if path_apart(h0, key_path@, nk_off) {
                            lemma_path_kept(h0, self@, key_path@, nk_off);
                        }
                    }
                    if cells && fr is Ok && self@.data.len() <= 0x8000_0000 {
                        lemma_replace_keeps_apart(
                            h0,
                            s2,
                            s3,
                            s4,
                            self@,
                            key_path@,
                            nk_off,
                            nk@,
                            ex,
                            i as int,
                            ovk,
                            new_vk,
                            vkv,
                            value_name@,
                        );
                        assert(set_nodes(h0.data, self@.data, nk_off, value_name@)) by {
                            lemma_write_ready(h0, s2.data, nk_off, nk@, ex, new_vk, vkv, value_name@);
                            lemma_replace_listing(
                                h0,
                                s2.data,
                                s3.data,
                                s4.data,
                                self@.data,
                                nk_off,
                                nk@,
                                ex,
                                i as int,
                                ovk,
                                new_vk,
                                vkv,
                                value_name@,
                            );
                            lemma_first_named_at(h0.data, s2.data, ex, i as int, value_name@);
                        }
                    }
                }
                return fr;
            }
            proof {
                reveal(other_value);
            }
            i = i + 1;
        }

        // Append: a new list holding the old entries and the new one.
        proof {
            assert(existing@.skip(i as int) =~= existing@.skip(existing@.len() as int));
        }
        let r = self.append_value_entry(
            Ghost(h0),
            Ghost(key_path@),
            value_name,
            Ghost(value@),
            nk_off,
            &nk,
            existing,
            new_vk,
            Ghost(vkv),
            Ghost(cells),
            Ghost(law),
            Ghost(owed),
        );
        proof {
            if cells && r is Ok {
                lemma_write_ready(h0, s2.data, nk_off, nk@, ex, new_vk, vkv, value_name@);
                lemma_value_list_len(h0.data, nk.value_list_offset, nk.value_count);
            }
        }
        r
    }

    /// Adds the value node at `new_vk` to the key at `nk_off`: writes a new
    /// value list holding the old entries and `new_vk`, frees the old list
    /// and points the key node at the new one.
    #[verifier::spinoff_prover]
    #[verifier::rlimit(60)]
    fn append_value_entry(
        &mut self,
        Ghost(h0): Ghost<HiveView>,
        Ghost(key_path): Ghost<Seq<char>>,
        value_name: &str,
        Ghost(value): Ghost<ValueModel>,
        nk_off: u32,
        nk: &crate::cell::KeyNodeRaw,
        existing: Vec<u32>,
        new_vk: u32,
        Ghost(vkv): Ghost<crate::cell::ValueNodeView>,
        Ghost(cells): Ghost<bool>,
        Ghost(law): Ghost<bool>,
        Ghost(owed): Ghost<bool>,
    ) -> (r: Result<()>)
        requires
            hive_wf(h0),
            h0.data.len() <= crate::hbin::max_hive_len(),
            h0.header.primary_sequence == h0.header.secondary_sequence,
            resolve_spec(h0, key_path) == Lookup::<u32>::Found(nk_off),
            write_kept(h0, old(self)@),
            key_node_at(old(self)@.data, nk_off) == Ok::<KeyNodeView, RegError>(nk@),
            value_list(old(self)@.data, nk.value_list_offset, nk.value_count) == Ok::<
                Seq<u32>,
                RegError,
            >(existing@),
            forall|k: int|
                0 <= k < existing@.len() ==> #[trigger] other_value(
                    old(self)@.data,
                    existing@[k],
                    value_name@,
                ),
            cells ==> write_ready(
                h0,
                old(self)@.data,
                nk_off,
                nk@,
                existing@,
                new_vk,
                vkv,
                value_name@,
            ),
            cells ==> tiled(old(self)@.data, old(self)@.header.hive_bins_size),
            owed == (cells && value_slot_reads(h0.data, nk_off, value_name@) && set_room(
                h0.data,
                nk_off,
            )),
            owed ==> scan_reads(h0.data, existing@.skip(existing@.len() as int), value_name@),
            h0.data.len() <= old(self)@.data.len(),
            owed ==> old(self)@.data.len() <= h0.data.len() + 0x2_0000,
            cells == (value_cells_apart(h0, nk_off) && crate::cell::name_to_bytes(
                value_name@,
                vstd::utf8::is_ascii_chars(value_name@),
            ).len() <= 0xFFFF),
            law == (cells && crate::value::survives_encoding(value)),
            law ==> value_of(old(self)@.data, vkv) == Some(Ok::<ValueModel, RegError>(value)),
        ensures
            write_kept(h0, final(self)@),
            owed ==> r is Ok,
            r is Ok && law ==> value_under(final(self)@.data, nk_off, value_name@) == Some(
                Lookup::Found(value),
            ),
            r is Ok && cells ==> keeps_other_cells(h0.data, final(self)@.data, nk_off) && key_same(
                h0.data,
                final(self)@.data,
                nk_off,
            ),
            r is Ok && cells ==> values_after_set(h0.data, final(self)@.data, nk_off, value_name@),
            r is Ok ==> final(self)@.data.len() <= old(self)@.data.len() + 4 * existing@.len() + 0x2004,
            r is Ok && cells && final(self)@.data.len() <= 0x8000_0000 ==> set_nodes(
                h0.data,
                final(self)@.data,
                nk_off,
                value_name@,
            ),
            r is Ok && law && path_apart(h0, key_path, nk_off) ==> get_value_spec(
                final(self)@,
                key_path,
                value_name@,
            ) == Some(Lookup::Found(value)),
            r is Ok && cells ==> forall|other: Seq<char>|
                name_order(other, value_name@) != 0 && value_reads_apart(h0.data, nk_off, other)
                    ==> #[trigger] value_under(final(self)@.data, nk_off, other) == value_under(
                    h0.data,
                    nk_off,
                    other,
                ),
            r is Ok && cells && final(self)@.data.len() <= 0x8000_0000 ==> value_cells_apart(
                final(self)@,
                nk_off,
            ) && (path_apart(h0, key_path, nk_off) ==> path_apart(final(self)@, key_path, nk_off)),
    {
        let ghost s2 = self@;
        let ghost ex = existing@;

        let mut offs = existing;
        offs.push(new_vk);
        proof {
            if owed {
                lemma_list_room(s2.data, nk.value_list_offset, nk.value_count);
                lemma_write_ready(h0, s2.data, nk_off, nk@, ex, new_vk, vkv, value_name@);
                lemma_value_list_len(h0.data, nk.value_list_offset, nk.value_count);
                lemma_room_within(s2.data.len() as int, 4 * offs@.len() as int);
            }
        }
        let new_list = self.write_value_list(offs.as_slice())?;
        let ghost s3 = self@;
        proof {
            lemma_keeps_base_trans(h0.data, s2.data, self@.data);
            if cells {
                lemma_write_ready(h0, s2.data, nk_off, nk@, ex, new_vk, vkv, value_name@);
                lemma_apart_key(h0, nk_off, nk@);
                if nk.value_list_offset != FREE && nk.value_list_offset != 0 {
                    crate::tiling::lemma_tile_bounds(h0.data, nk.value_list_offset + 0x1000);
                    lemma_used_kept(h0.data, s2.data, nk.value_list_offset);
                    lemma_used_kept(s2.data, s3.data, nk.value_list_offset);
                }
            }
        }
        if nk.value_list_offset != FREE && nk.value_list_offset != 0 {
            self.free_cell(nk.value_list_offset)?;
            proof {
                lemma_keeps_base_trans(h0.data, s3.data, self@.data);
            }
        }
        let ghost s4 = self@;
        proof {
            if owed {
                lemma_write_ready(h0, s2.data, nk_off, nk@, ex, new_vk, vkv, value_name@);
                lemma_nk_fields_one(
                    h0,
                    s2.data,
                    s3.data,
                    s4.data,
                    nk_off,
                    nk.value_list_offset,
                    nk.value_list_offset != FREE && nk.value_list_offset != 0,
                    new_list,
                    #[verifier::truncate] (offs@.len() as u32),
                );
            }
        }
        self.set_field(nk_off, crate::cell::NK_VALUE_LIST, new_list)?;
        let ghost s5 = self@;
        proof {
            lemma_keeps_base_trans(h0.data, s4.data, self@.data);
        }
        let fr = self.set_field(
            nk_off,
            crate::cell::NK_VALUE_COUNT,
            #[verifier::truncate] (offs.len() as u32),
        );
        proof {
            lemma_keeps_base_trans(h0.data, s5.data, self@.data);
            if cells && fr is Ok {
                lemma_write_ready(h0, s2.data, nk_off, nk@, ex, new_vk, vkv, value_name@);
                let ol = nk.value_list_offset;
                if ol != 0 && ol != FREE && nk.value_count != 0 {
                    let p = crate::cell::cell_payload_spec(s2.data, ol)->Ok_0;
                    crate::cell::lemma_offsets_fit(p, nk.value_count as nat);
                }
                assert(ex.push(new_vk) == offs@);
                lemma_make_append_facts(
                    h0,
                    s2.data,
                    s3.data,
                    s4.data,
                    self@.data,
                    nk_off,
                    nk@,
                    ex,
                    new_vk,
                    vkv,
                    new_list,
                    value_name@,
                );
                lemma_append_others(
                    h0,
                    s2.data,
                    s3.data,
                    s4.data,
                    self@.data,
                    nk_off,
                    nk@,
                    ex,
                    new_vk,
                    vkv,
                    new_list,
                    value_name@,
                );
                lemma_append_others_read(
                    h0,
                    s2.data,
                    s3.data,
                    s4.data,
                    self@.data,
                    nk_off,
                    nk@,
                    ex,
                    new_vk,
                    vkv,
                    new_list,
                    value_name@,
                );
            }
            if cells && fr is Ok {
                assert(values_after_set(h0.data, self@.data, nk_off, value_name@)) by {
                    lemma_write_ready(h0, s2.data, nk_off, nk@, ex, new_vk, vkv, value_name@);
                    lemma_append_listing(
                        h0,
                        s2.data,
                        s3.data,
                        s4.data,
                        self@.data,
                        nk_off,
                        nk@,
                        ex,
                        new_vk,
                        vkv,
                        new_list,
                        value_name@,
                    );
                    lemma_first_named_at(h0.data, s2.data, ex, ex.len() as int, value_name@);
                }
            }
            if law && fr is Ok {
                lemma_append_law(
                    s2.data,
                    s3.data,
                    s4.data,
                    self@.data,
                    nk_off,
                    nk@,
                    ex,
                    new_vk,
                    vkv,
                    new_list,
                    value_name@,
                    value,
                );
                if path_apart(h0, key_path, nk_off) {
                    lemma_path_kept(h0, self@, key_path, nk_off);
                }
            }
            if cells && fr is Ok && self@.data.len() <= 0x8000_0000 {
                lemma_append_keeps_apart(
                    h0,
                    s2.data,
                    s3,
                    s4,
                    self@,
                    key_path,
                    nk_off,
                    nk@,
                    ex,
                    new_vk,
                    vkv,
                    new_list,
                    value_name@,
                );
                assert(set_nodes(h0.data, self@.data, nk_off, value_name@)) by {
                    lemma_write_ready(h0, s2.data, nk_off, nk@, ex, new_vk, vkv, value_name@);
                    lemma_append_listing(
                        h0,
                        s2.data,
                        s3.data,
                        s4.data,
                        self@.data,
                        nk_off,
                        nk@,
                        ex,
                        new_vk,
                        vkv,
                        new_list,
                        value_name@,
                    );
                    lemma_first_named_at(h0.data, s2.data, ex, ex.len() as int, value_name@);
                }
            }
        }
        fr
    }
}

} // verus!

verus! {

impl Hive {
    /// Deletes the value `value_name` of the key at `key_path`; fails with
    /// `ValueNotFound` if there is none.
    #[verifier::spinoff_prover]
    #[verifier::rlimit(60)]
    pub fn delete_value(&mut self, key_path: &str, value_name: &str) -> (r: Result<()>)
        requires
            old(self).wf(),
            old(self)@.data.len() <= crate::hbin::max_hive_len(),
        ensures
            final(self).wf(),
            final(self)@.data.len() <= crate::hbin::max_hive_len(),
            old(self)@.header.primary_sequence != old(self)@.header.secondary_sequence ==> r
                == Err::<(), RegError>(RegError::DirtyHive) && final(self)@ == old(self)@,
            old(self)@.header.primary_sequence == old(self)@.header.secondary_sequence ==> {
                &&& write_kept(old(self)@, final(self)@)
                &&& match resolve_spec(old(self)@, key_path@) {
                    Lookup::Found(off) => match key_node_at(old(self)@.data, off) {
                        Err(e) => r matches Err(x) && x == e && final(self)@ == old(self)@,
                        Ok(nk) => match value_list(
                            old(self)@.data,
                            nk.value_list_offset,
                            nk.value_count,
                        ) {
                            Err(e) => r matches Err(x) && x == e && final(self)@ == old(self)@,
                            Ok(offs) => match has_value_named(old(self)@.data, offs, value_name@) {
                                Err(e) => r matches Err(x) && x == e && final(self)@ == old(self)@,
                                Ok(false) => r matches Err(RegError::ValueNotFound(n)) && n@
                                    == value_name@ && final(self)@ == old(self)@,
                                Ok(true) => value_cells_apart(old(self)@, off) ==> {
                                    let kept = values_without(old(self)@.data, offs, value_name@);
                                    &&& (kept.len() == 0 || room_fits(
                                        old(self)@.data.len() as int,
                                        4 * kept.len() as int,
                                    )) ==> r is Ok
                                    &&& r is Err ==> final(self)@ == old(self)@
                                },
                            },
                        },
                    },
                    Lookup::Fails(e) => r matches Err(x) && x == e && final(self)@ == old(self)@,
                    Lookup::NoKey => r matches Err(RegError::KeyNotFound(p)) && p@ == key_path@
                        && final(self)@ == old(self)@,
                    Lookup::NoValue => false,
                }
            },
            resolve_spec(old(self)@, key_path@) matches Lookup::Found(nk_off) ==> (r is Ok
                && value_cells_apart(old(self)@, nk_off) ==> value_under(
                final(self)@.data,
                nk_off,
                value_name@,
            ) == Some(Lookup::<ValueModel>::NoValue)),
            resolve_spec(old(self)@, key_path@) matches Lookup::Found(nk_off) ==> (r is Ok
                && value_cells_apart(old(self)@, nk_off) ==> values_after_delete(
                old(self)@.data,
                final(self)@.data,
                nk_off,
                value_name@,
            )),
            resolve_spec(old(self)@, key_path@) matches Lookup::Found(nk_off) ==> (r is Ok
                && value_cells_apart(old(self)@, nk_off) ==> keeps_other_cells(
                old(self)@.data,
                final(self)@.data,
                nk_off,
            ) && key_same(old(self)@.data, final(self)@.data, nk_off)),
            resolve_spec(old(self)@, key_path@) matches Lookup::Found(nk_off) ==> (r is Ok
                && value_cells_apart(old(self)@, nk_off) && path_apart(old(self)@, key_path@, nk_off)
                ==> get_value_spec(final(self)@, key_path@, value_name@) == Some(
                Lookup::<ValueModel>::NoValue,
            )),
            resolve_spec(old(self)@, key_path@) matches Lookup::Found(nk_off) ==> (r is Ok
                && value_cells_apart(old(self)@, nk_off) ==> forall|other: Seq<char>|
                name_order(other, value_name@) != 0 && value_reads_apart(old(self)@.data, nk_off, other)
                    ==> #[trigger] value_under(final(self)@.data, nk_off, other) == value_under(
                    old(self)@.data,
                    nk_off,
                    other,
                )),
            resolve_spec(old(self)@, key_path@) matches Lookup::Found(nk_off) ==> (r is Ok
                && value_cells_apart(old(self)@, nk_off) && final(self)@.data.len() <= 0x8000_0000
                ==> value_cells_apart(final(self)@, nk_off) && (path_apart(
                old(self)@,
                key_path@,
                nk_off,
            ) ==> path_apart(final(self)@, key_path@, nk_off))),
    {
        self.guard_writable()?;
        let nk_off = self.resolve(key_path)?;
        let ghost h0 = self@;
        let ghost d = self@.data;
        let ghost law = value_cells_apart(h0, nk_off);
        proof {
            lemma_wf_kept(h0, h0.data, h0.header);
        }
        let nk = read_key_node(self.data.as_slice(), nk_off)?;
        let existing = value_offsets(self.data.as_slice(), nk.value_list_offset, nk.value_count)?;

        let mut kept: Vec<u32> = Vec::new();
        let mut victim: Option<(u32, crate::cell::ValueNodeRaw)> = None;
        let ghost mut idx: Seq<int> = Seq::empty();
        let ghost mut iv: int = 0;
        let mut i: usize = 0;
        proof {
            assert(existing@.skip(0) =~= existing@);
        }
        while i < existing.len()
            invariant
                d == self.data@,
                h0 == old(self)@,
                self@ == h0,
                hive_wf(h0),
                h0.data.len() <= crate::hbin::max_hive_len(),
                h0.header.primary_sequence == h0.header.secondary_sequence,
                resolve_spec(h0, key_path@) == Lookup::<u32>::Found(nk_off),
                key_node_at(d, nk_off) matches Ok(v) && v == nk@,
                value_list(d, nk.value_list_offset, nk.value_count) == Ok::<Seq<u32>, RegError>(existing@),
                i <= existing@.len(),
                has_value_named(d, existing@, value_name@) == or_found(
                    victim is Some,
                    has_value_named(d, existing@.skip(i as int), value_name@),
                ),
                idx.len() == kept@.len(),
                forall|a: int, b: int| 0 <= a < b < idx.len() ==> #[trigger] idx[a] < #[trigger] idx[b],
                filtered(d, existing@.take(i as int), kept@, value_name@),
                kept@.len() <= i,
                forall|k: int|
                    0 <= k < kept@.len() ==> 0 <= #[trigger] idx[k] < i && kept@[k] == existing@[idx[k]]
                        && other_value(d, kept@[k], value_name@),
                victim matches Some((o, v)) ==> 0 <= iv < i && o == existing@[iv] && value_node_at(d, o)
                    == Ok::<crate::cell::ValueNodeView, RegError>(v@) && name_order(v@.name, value_name@)
                    == 0,
            decreases existing@.len() - i,
        {
            let ghost rest = existing@.skip(i as int);
            proof {
                assert(rest[0] == existing@[i as int]);
                assert(rest.skip(1) =~= existing@.skip(i + 1));
            }
            let vk_off = existing[i];
            let vk = match read_value_node(self.data.as_slice(), vk_off) {
                Ok(v) => v,
                Err(e) => {
                    proof {
                        assert(has_value_named(d, rest, value_name@) == Err::<bool, RegError>(e));
                    }
                    return Err(e);
                },
            };
            proof {
                lemma_filtered_push(d, existing@.take(i as int), kept@, vk_off, value_name@);
                assert(existing@.take(i + 1) =~= existing@.take(i as int).push(vk_off));
            }
            if eq_name(vk.name.as_str(), value_name) {
                victim = Some((vk_off, vk));
                proof {
                    iv = i as int;
                }
            } else {
                kept.push(vk_off);
                proof {
                    idx = idx.push(i as int);
                    reveal(other_value);
                }
            }
            i = i + 1;
        }
        proof {
            assert(existing@.skip(i as int) =~= Seq::<u32>::empty());
            assert(existing@.take(i as int) =~= existing@);
        }
        let (vk_off, vk) = match victim {
            Some(v) => v,
            None => {
                return Err(RegError::ValueNotFound(value_name.to_owned()));
            },
        };

        let ghost ovk = vk@;
        proof {
            if law {
                lemma_apart_key(h0, nk_off, nk@);
            }
        }
        proof {
            lemma_filtered_without(d, existing@, kept@, value_name@);
        }
        let new_list = if kept.len() == 0 {
            FREE
        } else {
            self.write_value_list(kept.as_slice())?
        };
        let ghost s3 = self@;
        proof {
            if law {
                lemma_apart_node(h0, nk_off, nk@, existing@, iv);
                crate::tiling::lemma_tile_bounds(h0.data, vk_off + 0x1000);
                if nk.value_list_offset != FREE && nk.value_list_offset != 0 {
                    crate::tiling::lemma_tile_bounds(h0.data, nk.value_list_offset + 0x1000);
                }
                if data_in_cell(ovk) {
                    crate::tiling::lemma_tile_bounds(h0.data, ovk.data_offset + 0x1000);
                }
            }
        }
        if nk.value_list_offset != FREE && nk.value_list_offset != 0 {
            self.free_cell(nk.value_list_offset)?;
            proof {
                lemma_keeps_base_trans(h0.data, s3.data, self@.data);
            }
        }
        let ghost s4 = self@;
        self.free_value_storage(&vk)?;
        let ghost s5 = self@;
        proof {
            lemma_keeps_base_trans(h0.data, s4.data, self@.data);
        }
        self.free_cell(vk_off)?;
        let ghost s6 = self@;
        proof {
            lemma_keeps_base_trans(h0.data, s5.data, self@.data);
            if law {
                let ol = nk.value_list_offset;
                assert forall|x: int|
                    0 <= x < s3.data.len() && !((ol != 0 && ol != FREE) && ol + 0x1000 <= x < ol + 0x1004)
                        && !(data_in_cell(ovk) && ovk.data_offset + 0x1000 <= x < ovk.data_offset + 0x1004)
                        && !(true && vk_off + 0x1000 <= x < vk_off + 0x1004) implies #[trigger] s6.data[x]
                    == s3.data[x] by {
                    assert(s4.data[x] == s3.data[x]);
                    assert(s5.data[x] == s4.data[x]);
                }
                lemma_nk_fields_ok(
                    h0,
                    h0.data,
                    s3.data,
                    s6.data,
                    nk_off,
                    ol,
                    ol != 0 && ol != FREE,
                    ovk.data_offset,
                    data_in_cell(ovk),
                    vk_off,
                    true,
                    new_list,
                    #[verifier::truncate] (kept@.len() as u32),
                );
            }
        }
        self.set_field(nk_off, crate::cell::NK_VALUE_LIST, new_list)?;
        let ghost s7 = self@;
        proof {
            lemma_keeps_base_trans(h0.data, s6.data, self@.data);
        }
        let fr = self.set_field(
            nk_off,
            crate::cell::NK_VALUE_COUNT,
            #[verifier::truncate] (kept.len() as u32),
        );
        proof {
            lemma_keeps_base_trans(h0.data, s7.data, self@.data);
            if law && fr is Ok {
                let ol = nk.value_list_offset;
                if ol != 0 && ol != FREE && nk.value_count != 0 {
                    let p = crate::cell::cell_payload_spec(d, ol)->Ok_0;
                    crate::cell::lemma_offsets_fit(p, nk.value_count as nat);
                }
                assert forall|x: int|
                    0 <= x < s3.data.len() && !(ol != 0 && ol != FREE && ol + 0x1000 <= x < ol + 0x1004)
                        && !(data_in_cell(ovk) && ovk.data_offset + 0x1000 <= x < ovk.data_offset
                        + 0x1004) && !(vk_off + 0x1000 <= x < vk_off + 0x1004) implies #[trigger] s6.data[x]
                    == s3.data[x] by {
                    assert(s4.data[x] == s3.data[x]);
                    assert(s5.data[x] == s4.data[x]);
                }
                lemma_make_delete_facts(
                    h0,
                    s3.data,
                    s6.data,
                    self@.data,
                    nk_off,
                    nk@,
                    existing@,
                    kept@,
                    idx,
                    iv,
                    ovk,
                    new_list,
                    value_name@,
                );
                lemma_delete_others(
                    h0,
                    s3.data,
                    s6.data,
                    self@.data,
                    nk_off,
                    nk@,
                    existing@,
                    kept@,
                    idx,
                    iv,
                    ovk,
                    new_list,
                    value_name@,
                );
                assert(values_after_delete(h0.data, self@.data, nk_off, value_name@)) by {
                    lemma_delete_list(
                        h0,
                        s3.data,
                        s6.data,
                        self@.data,
                        nk_off,
                        nk@,
                        existing@,
                        kept@,
                        idx,
                        iv,
                        ovk,
                        new_list,
                        value_name@,
                    );
                    lemma_filtered_without(d, existing@, kept@, value_name@);
                }
                lemma_delete_law(
                    h0,
                    s3.data,
                    s6.data,
                    self@.data,
                    nk_off,
                    nk@,
                    existing@,
                    kept@,
                    idx,
                    iv,
                    ovk,
                    new_list,
                    value_name@,
                );
                lemma_delete_others_read(
                    h0,
                    s3.data,
                    s6.data,
                    self@.data,
                    nk_off,
                    nk@,
                    existing@,
                    kept@,
                    idx,
                    iv,
                    ovk,
                    new_list,
                    value_name@,
                );
                if path_apart(h0, key_path@, nk_off) {
                    lemma_path_kept(h0, self@, key_path@, nk_off);
                }
                if self@.data.len() <= 0x8000_0000 {
                    lemma_delete_keeps_apart(
                        h0,
                        s3,
                        s4,
                        s5,
                        s6,
                        self@,
                        key_path@,
                        nk_off,
                        nk@,
                        existing@,
                        kept@,
                        idx,
                        iv,
                        ovk,
                        new_list,
                        value_name@,
                    );
                }
            }
        }
        fr
    }
}

} // verus!

verus! {

/// The bytes of a minimal self-relative security descriptor cell (`sk`):
/// signature, links and reference count left to fill, descriptor size 20,
/// descriptor revision 1 with control `SE_SELF_RELATIVE`.
pub open spec fn min_security_bytes() -> Seq<u8> {
    Seq::new(40, |i: int| 0u8).update(0, 0x73u8).update(1, 0x6Bu8).update(16, 20u8).update(
        20,
        1u8,
    ).update(23, 0x80u8)
}

/// Builds a minimal self-relative security descriptor (a 40-byte `sk` cell).
fn build_min_security() -> (p: Vec<u8>)
    ensures
        p@ == min_security_bytes(),
{
    // sk: "sk"(2) reserved(2) flink(4) blink(4) refcount(4) sd_size(4) sd(20)
    let mut p = crate::bytes::zeros(40);
    p.set(0, 0x73u8);
    p.set(1, 0x6Bu8);
    // flink, blink and refcount are filled by the caller.
    crate::bytes::wr(p.as_mut_slice(), 16, 20);
    // Self-relative descriptor: revision 1, control SE_SELF_RELATIVE; owner,
    // group, SACL and DACL absent.
    p.set(20, 1u8);
    crate::bytes::wr16(p.as_mut_slice(), 22, 0x8000u16);
    proof {
        assert(p@ =~= min_security_bytes());
    }
    p
}

/// The root name that a fresh hive reads back: the name's stored bytes,
/// cut to the 16-bit length field, decoded as the flags say (one byte per
/// character for an ASCII name, UTF-16LE otherwise).
pub open spec fn root_name_read_back(name: Seq<char>) -> Seq<char> {
    let ascii = vstd::utf8::is_ascii_chars(name);
    let nb = crate::cell::name_to_bytes(name, ascii);
    crate::cell::name_from_bytes(nb.subrange(0, (nb.len() as u16) as int), ascii)
}

/// A root name whose stored bytes fit the 16-bit length field reads back
/// unchanged.
pub proof fn lemma_root_name_read_back(name: Seq<char>)
    requires
        crate::cell::name_to_bytes(name, vstd::utf8::is_ascii_chars(name)).len() <= 0xFFFF,
    ensures
        root_name_read_back(name) == name,
{
    let ascii = vstd::utf8::is_ascii_chars(name);
    let nb = crate::cell::name_to_bytes(name, ascii);
    assert((nb.len() as u16) as int == nb.len());
    assert(nb.subrange(0, nb.len() as int) =~= nb);
    if ascii {
        vstd::utf8::is_ascii_chars_encode_utf8(name);
        assert forall|i: int| 0 <= i < name.len() implies nb[i] as char == name[i] by {
            assert(name[i] as u8 == nb[i]);
        }
        assert(nb.map_values(|x: u8| x as char) =~= name);
    } else {
        crate::value::lemma_units_of_le16(crate::utf16::utf16_encode(name));
        crate::utf16::lemma_utf16_roundtrip(name);
    }
}

} // verus!


verus! {

/// The bytes of a fresh hive: a base block (signature, sequence numbers 1,
/// version 1.5, one 4 KiB bin) and one hive bin holding one free cell.
#[verifier::spinoff_prover]
fn fresh_hive_bytes() -> (d: Vec<u8>)
    ensures
        d@.len() == 0x2000,
        has_regf_signature(d@),
        u32_at(d@, 0x04) == 1,
        u32_at(d@, 0x08) == 1,
        u32_at(d@, 0x14) == 1,
        u32_at(d@, 0x18) == 5,
        u32_at(d@, 0x28) == 0x1000,
        tiled(d@, 0x1000),
        crate::hbin::is_hbin_magic(d@, 0x1000),
        u32_at(d@, 0x1008) == 0x1000,
        crate::bytes::i32_at(d@, 0x1020) == 0xFE0,
{
    let mut data = crate::bytes::zeros(0x2000);

    // Base block.
    data.set(0, 0x72u8);
    data.set(1, 0x65u8);
    data.set(2, 0x67u8);
    data.set(3, 0x66u8);
    crate::bytes::wr(data.as_mut_slice(), 0x04, 1);  // primary sequence
    crate::bytes::wr(data.as_mut_slice(), 0x08, 1);  // secondary sequence
    crate::bytes::wr(data.as_mut_slice(), 0x14, 1);  // major version
    crate::bytes::wr(data.as_mut_slice(), 0x18, 5);  // minor version
    crate::bytes::wr(data.as_mut_slice(), 0x1C, 0);  // file type (primary)
    crate::bytes::wr(data.as_mut_slice(), 0x20, 1);  // file format (direct memory load)
    crate::bytes::wr(data.as_mut_slice(), 0x28, 0x1000);  // hive bins size
    crate::bytes::wr(data.as_mut_slice(), 0x2C, 1);  // clustering factor
    let ghost base = data@;
    proof {
        assert(u32_at(base, 0x04) == 1 && u32_at(base, 0x08) == 1);
        assert(u32_at(base, 0x14) == 1 && u32_at(base, 0x18) == 5);
    }

    // The first hive bin, then one large free cell.
    data.set(0x1000, 0x68u8);
    data.set(0x1001, 0x62u8);
    data.set(0x1002, 0x69u8);
    data.set(0x1003, 0x6Eu8);
    crate::bytes::wr(data.as_mut_slice(), 0x1004, 0);  // bin offset
    crate::bytes::wr(data.as_mut_slice(), 0x1008, 0x1000);  // bin size
    let ghost b1 = data@;
    crate::bytes::wr_i32(data.as_mut_slice(), 0x1020, 0x1000 - 0x20);
    proof {
        let d = data@;
        assert forall|i: int| 0 <= i < 0x1000 implies #[trigger] d[i] == base[i] by {}
        assert(u32_at(d, 0x04) == u32_at(base, 0x04) && u32_at(d, 0x08) == u32_at(base, 0x08));
        assert(u32_at(d, 0x14) == u32_at(base, 0x14) && u32_at(d, 0x18) == u32_at(base, 0x18));
        assert(u32_at(d, 0x28) == u32_at(base, 0x28));
        assert(d[0x1000] == 0x68u8 && d[0x1001] == 0x62u8 && d[0x1002] == 0x69u8 && d[0x1003] == 0x6Eu8);
        assert(u32_at(d, 0x1008) == u32_at(b1, 0x1008));
        assert(crate::tiling::bin_size_at(d, 0x1000) == 0x1000);
        assert(crate::tiling::size_at(d, 0x1020) == 0xFE0);
        assert(crate::tiling::cells_tile(d, 0x2000, 0x2000));
        assert(crate::tiling::cells_tile(d, 0x1020, 0x2000));
        assert(crate::tiling::bins_tile(d, 0x2000, 0x2000));
        assert(crate::tiling::bins_tile(d, 0x1000, 0x2000));
    }
    data
}

/// Rewriting the payload of the allocated cell at `off` of tiled bins keeps
/// them tiled and every allocated cell allocated.
proof fn lemma_payload_write_tiles(d: Seq<u8>, d2: Seq<u8>, off: u32, other: u32)
    requires
        crate::tiling::bins_tile(d, 0x1000, d.len() as int),
        used_tile(d, off + 0x1000),
        used_tile(d, other + 0x1000),
        other != off,
        crate::hbin::payload_range(d, off) matches Ok((x, y)) && d2.len() == d.len() && (forall|i: int|
            0 <= i < d.len() && !(x <= i < y) ==> #[trigger] d2[i] == d[i]),
    ensures
        crate::tiling::bins_tile(d2, 0x1000, d2.len() as int),
        used_tile(d2, off + 0x1000),
        used_tile(d2, other + 0x1000),
        cell_kept(d, d2, other),
{
    let (x, y) = crate::hbin::payload_range(d, off).unwrap();
    crate::tiling::lemma_write_in_tile(d, d2, off + 0x1000, x, y);
    assert(is_tile(d, other + 0x1000));
    crate::tiling::lemma_tile_bounds(d, other + 0x1000);
}

/// A security cell that reads for a reference count increment still does
/// once its bytes are kept.
proof fn lemma_incr_kept(d: Seq<u8>, d2: Seq<u8>, sk: u32)
    requires
        is_tile(d, sk + 0x1000),
        cell_kept(d, d2, sk),
        crate::cell::incr_refcount_spec(d, sk) is Ok,
    ensures
        crate::cell::incr_refcount_spec(d2, sk) is Ok,
{
    let c = sk + 0x1000;
    crate::tiling::lemma_tile_bounds(d, c);
    assert(d2[c] == d[c] && d2[c + 1] == d[c + 1] && d2[c + 2] == d[c + 2] && d2[c + 3] == d[c + 3]);
    assert(crate::hbin::payload_range(d2, sk) == crate::hbin::payload_range(d, sk));
    let (a, b) = crate::hbin::payload_range(d, sk).unwrap();
    assert(d2[a] == d[a] && d2[a + 1] == d[a + 1]);
}

/// A hive whose root key node is allocated, has no subkey, and has its own
/// allocated security cell, ready for a reference count increment, in
/// tiled bins.
pub open spec fn fresh_root(h: HiveView) -> bool {
    let root = h.header.root_cell_offset;
    &&& tiled(h.data, h.header.hive_bins_size)
    &&& used_tile(h.data, root + 0x1000)
    &&& key_node_at(h.data, root) is Ok
    &&& key_node_at(h.data, root)->Ok_0.subkey_list_offset == FREE
    &&& used_tile(h.data, key_node_at(h.data, root)->Ok_0.security_offset + 0x1000)
    &&& key_node_at(h.data, root)->Ok_0.security_offset != root
    &&& crate::cell::incr_refcount_spec(h.data, key_node_at(h.data, root)->Ok_0.security_offset) is Ok
}

/// In a hive whose root has no subkey yet, creating any path whose names
/// fit their 16-bit lengths meets what the creation law needs.
pub proof fn lemma_fresh_create_ready(h: HiveView, path: Seq<char>)
    requires
        fresh_root(h),
        names_fit_from(path_parts(path), 0),
    ensures
        create_ready(h, path),
        create_security_ok(h, path),
{
    let parts = path_parts(path);
    let root = h.header.root_cell_offset;
    reveal(create_ready);
    if parts.len() > 0 {
        let pk = key_node_at(h.data, root)->Ok_0;
        assert(subkey_list(h.data, FREE) == Ok::<Seq<u32>, RegError>(Seq::empty()));
        assert(lists_freed(h.data, FREE) == Seq::<u32>::empty());
        assert(Seq::<u32>::empty().no_duplicates());
        assert(first_missing(h.data, root, parts) == Some((0int, root)));
        assert(crate::cell::name_to_bytes(parts[0], vstd::utf8::is_ascii_chars(parts[0])).len() <= 0xFFFF);
        assert(insert_ready(h, root, parts[0])) by {
            reveal(insert_ready);
        }
        assert(parts.take(0) =~= Seq::<Seq<char>>::empty());
    }
}

/// In the hive that a new empty hive starts from, the security cell and a
/// root key node of up to `0xFA8` payload bytes both fit in the first bin:
/// the hive keeps its length.
#[verifier::spinoff_prover]
#[verifier::rlimit(40)]
proof fn lemma_fresh_no_growth(h1: HiveView, h2: HiveView, h3: HiveView, sk_off: u32, nk_off: u32, plen: int)
    requires
        h1.data.len() == 0x2000,
        h1.header.hive_bins_size == 0x1000,
        crate::hbin::is_hbin_magic(h1.data, 0x1000),
        u32_at(h1.data, 0x1008) == 0x1000,
        crate::bytes::i32_at(h1.data, 0x1020) == 0xFE0,
        alloc_in_place(h1, h2, sk_off, 40),
        alloc_in_place(h2, h3, nk_off, plen),
        76 <= plen <= 0xFA8 - 4,
    ensures
        h3.data.len() == 0x2000,
        h3.header.hive_bins_size == 0x1000,
        sk_off == 0x20,
        nk_off == 0x50,
{
    reveal(alloc_in_place);
    let d1 = h1.data;
    let d2 = h2.data;
    assert(crate::hbin::cell_need(40) == 48);
    assert(crate::hbin::fit_in_bin(d1, 0x1020, 0x2000, 48) == Some(0x1020int));
    assert(crate::hbin::first_fit(d1, 0x1000, 0x2000, 48) == Some(0x1020int));
    let sp1 = crate::bytes::put_u32(d1, 0x1020, crate::bytes::i32_bits(-48i32));
    let sp = crate::bytes::put_u32(sp1, 0x1050, crate::bytes::i32_bits(0xFB0i32));
    assert(crate::hbin::split_cell(d1, 0x1020, 0xFE0, 48) == sp);
    crate::bytes::lemma_put_u32(d1, 0x1020, crate::bytes::i32_bits(-48i32));
    crate::bytes::lemma_put_i32(d1, 0x1020, -48i32);
    crate::bytes::lemma_put_u32(sp1, 0x1050, crate::bytes::i32_bits(0xFB0i32));
    crate::bytes::lemma_put_i32(sp1, 0x1050, 0xFB0i32);
    assert(d2.len() == 0x2000);
    assert(h2.header.hive_bins_size == 0x1000);
    assert(d2[0x1020] == sp[0x1020] && d2[0x1021] == sp[0x1021] && d2[0x1022] == sp[0x1022] && d2[0x1023]
        == sp[0x1023]);
    assert(crate::bytes::i32_at(d2, 0x1020) == -48i32);
    assert(d2[0x1050] == sp[0x1050] && d2[0x1051] == sp[0x1051] && d2[0x1052] == sp[0x1052] && d2[0x1053]
        == sp[0x1053]);
    assert(crate::bytes::i32_at(d2, 0x1050) == 0xFB0i32);
    assert(d2[0x1000] == d1[0x1000] && d2[0x1001] == d1[0x1001] && d2[0x1002] == d1[0x1002] && d2[0x1003]
        == d1[0x1003]);
    assert(d2[0x1008] == d1[0x1008] && d2[0x1009] == d1[0x1009] && d2[0x100A] == d1[0x100A] && d2[0x100B]
        == d1[0x100B]);
    let need = crate::hbin::cell_need(plen);
    assert((plen + 4 + 7) / 8 * 8 <= plen + 4 + 7) by (nonlinear_arith)
        requires
            plen >= 0,
    ;
    assert(8 <= need <= 0xFB0);
    assert(crate::hbin::fit_in_bin(d2, 0x1050, 0x2000, need) == Some(0x1050int));
    assert(crate::hbin::fit_in_bin(d2, 0x1020, 0x2000, need) == Some(0x1050int));
    assert(crate::hbin::first_fit(d2, 0x1000, 0x2000, need) == Some(0x1050int));
}

/// The flags of the root key node at `off`: hive entry and no delete, and
/// compressed name for a name stored one byte per character.
pub open spec fn root_flags_ok(d: Seq<u8>, off: u32, name: Seq<char>) -> bool {
    crate::cell::cell_payload_spec(d, off) matches Ok(p) && p.len() >= 4 && crate::bytes::u16_at(p, 2) == (if vstd::utf8::is_ascii_chars(
        name,
    ) {
        0x2Cu16
    } else {
        0x0Cu16
    })
}

/// Root flags read from the bytes of the flags field.
proof fn lemma_root_flags(d: Seq<u8>, off: u32, p: Seq<u8>, name: Seq<char>)
    requires
        crate::cell::cell_payload_spec(d, off) == Ok::<Seq<u8>, RegError>(p),
        p.len() >= 4,
        p[2] == (if vstd::utf8::is_ascii_chars(name) {
            0x2Cu8
        } else {
            0x0Cu8
        }),
        p[3] == 0u8,
    ensures
        root_flags_ok(d, off, name),
{
}

/// The security cell at `sk` is linked to itself (both links `sk`) and
/// referenced once.
pub open spec fn security_linked(d: Seq<u8>, sk: u32) -> bool {
    crate::cell::cell_payload_spec(d, sk) matches Ok(p) && p.len() >= 16 && u32_at(p, 4) == sk
        && u32_at(p, 8) == sk && u32_at(p, 12) == 1
}

impl Hive {
    /// Writes a minimal security descriptor, linked to itself and referenced
    /// once; returns its offset.
    #[verifier::spinoff_prover]
    #[verifier::rlimit(40)]
    fn add_security(&mut self) -> (sk_off: u32)
        requires
            hive_wf(old(self)@),
            old(self)@.data.len() <= 0x1_0000,
        ensures
            write_kept(old(self)@, final(self)@),
            final(self)@.data.len() <= old(self)@.data.len() + 0x2100,
            tiled(old(self)@.data, old(self)@.header.hive_bins_size) ==> tiled(
                final(self)@.data,
                final(self)@.header.hive_bins_size,
            ) && used_tile(final(self)@.data, sk_off + 0x1000),
            alloc_in_place(old(self)@, final(self)@, sk_off, 40),
            crate::cell::incr_refcount_spec(final(self)@.data, sk_off) is Ok,
            security_linked(final(self)@.data, sk_off),
    {
        let sk = build_min_security();
        let sk_off = self.alloc_write(sk.as_slice()).expect("alloc sk");
        let ghost d1 = self.data@;
        let ghost s1 = self@;
        let ghost p0 = crate::hbin::payload_range(d1, sk_off).unwrap();
        {
            let p = crate::hbin::payload_mut(self.data.as_mut_slice(), sk_off).unwrap();
            crate::bytes::wr(p, 4, sk_off);
            crate::bytes::wr(p, 8, sk_off);
            crate::bytes::wr(p, 12, 1);
        }
        proof {
            let d2 = self.data@;
            assert forall|i: int| 0 <= i < 0x1000 implies #[trigger] d2[i] == d1[i] by {}
            lemma_wf_kept(s1, d2, self.header);
            let (x0, y0) = p0;
            let q0 = d1.subrange(x0, y0);
            let q1 = crate::bytes::put_u32(q0, 4, sk_off);
            let q2 = crate::bytes::put_u32(q1, 8, sk_off);
            crate::bytes::lemma_put_u32(q0, 4, sk_off);
            crate::bytes::lemma_put_u32(q1, 8, sk_off);
            crate::bytes::lemma_put_u32(q2, 12, 1);
            let q3 = crate::bytes::put_u32(q2, 12, 1);
            assert(d2.subrange(x0, y0) =~= q3);
            assert(u32_at(q3, 4) == u32_at(q2, 4));
            assert(u32_at(q3, 8) == u32_at(q2, 8));
            assert(u32_at(q2, 4) == u32_at(q1, 4));
            assert forall|i: int| 0 <= i < d1.len() && !(x0 + 4 <= i < x0 + 16) implies #[trigger] d2[i] == d1[i] by {
                if i >= y0 {
                    assert(d2[i] == d1.subrange(y0, d1.len() as int)[i - y0]);
                } else if i < x0 {
                    assert(d2[i] == d1.subrange(0, x0)[i]);
                } else {
                    assert(d1[i] == q0[i - x0]);
                }
            }
            assert(alloc_in_place(old(self)@, self@, sk_off, 40)) by {
                reveal(alloc_in_place);
                assert(crate::hbin::cell_need(40) == 48);
            }
            assert(d2[x0 - 4] == d1[x0 - 4] && d2[x0 - 3] == d1[x0 - 3] && d2[x0 - 2] == d1[x0 - 2]
                && d2[x0 - 1] == d1[x0 - 1]);
            assert(crate::hbin::payload_range(d2, sk_off) == crate::hbin::payload_range(d1, sk_off));
            assert(d1.subrange(x0, x0 + 40)[0] == d1[x0] && d1.subrange(x0, x0 + 40)[1] == d1[x0 + 1]);
            assert(d2[x0] == d1[x0] && d2[x0 + 1] == d1[x0 + 1]);
            if tiled(old(self)@.data, old(self)@.header.hive_bins_size) {
                let c = sk_off + 0x1000;
                let (x, y) = crate::hbin::payload_range(d1, sk_off).unwrap();
                assert forall|i: int| 0 <= i < d1.len() && !(x <= i < y) implies #[trigger] d2[i] == d1[i] by {
                    if i >= y {
                        assert(d2[i] == d1.subrange(y, d1.len() as int)[i - y]);
                    } else {
                        assert(d2[i] == d1.subrange(0, x)[i]);
                    }
                }
                crate::tiling::lemma_write_in_tile(d1, d2, c, x, y);
            }
        }
        sk_off
    }

    /// Writes the root key node named `name`; returns its offset.
    #[verifier::spinoff_prover]
    #[verifier::rlimit(60)]
    fn add_root_node(&mut self, name: &str, sk_off: u32) -> (nk_off: u32)
        requires
            hive_wf(old(self)@),
            old(self)@.data.len() <= 0x2_0000,
            76 + crate::cell::name_to_bytes(name@, vstd::utf8::is_ascii_chars(name@)).len()
                <= 0x7FFF_0000,
        ensures
            write_kept(old(self)@, final(self)@),
            final(self)@.data.len() <= old(self)@.data.len() + 0x8000_2000,
            nk_off + 0x1000 >= 0x1020,
            key_node_at(final(self)@.data, nk_off) matches Ok(nk) && nk.name == root_name_read_back(
                name@,
            ) && nk.subkey_count == 0 && nk.subkey_list_offset == FREE && nk.value_count == 0
                && nk.value_list_offset == FREE && nk.security_offset == sk_off,
            tiled(old(self)@.data, old(self)@.header.hive_bins_size) && used_tile(
                old(self)@.data,
                sk_off + 0x1000,
            ) ==> tiled(final(self)@.data, final(self)@.header.hive_bins_size) && used_tile(
                final(self)@.data,
                nk_off + 0x1000,
            ) && used_tile(final(self)@.data, sk_off + 0x1000) && nk_off != sk_off,
            alloc_in_place(
                old(self)@,
                final(self)@,
                nk_off,
                76 + crate::cell::name_to_bytes(name@, vstd::utf8::is_ascii_chars(name@)).len() as int,
            ),
            tiled(old(self)@.data, old(self)@.header.hive_bins_size) && used_tile(
                old(self)@.data,
                sk_off + 0x1000,
            ) && crate::cell::incr_refcount_spec(old(self)@.data, sk_off) is Ok
                ==> crate::cell::incr_refcount_spec(final(self)@.data, sk_off) is Ok,
            tiled(old(self)@.data, old(self)@.header.hive_bins_size) && used_tile(
                old(self)@.data,
                sk_off + 0x1000,
            ) ==> crate::cell::cell_payload_spec(final(self)@.data, sk_off)
                == crate::cell::cell_payload_spec(old(self)@.data, sk_off),
            root_flags_ok(final(self)@.data, nk_off, name@),
    {
        let nk = crate::cell::build_key_node(name, FREE, sk_off);
        let nk_off = self.alloc_write(nk.as_slice()).expect("alloc nk");
        let ghost d3 = self.data@;
        let ghost s3 = self@;
        let ghost (x, y) = crate::hbin::payload_range(d3, nk_off).unwrap();
        // Root flags: hive entry, no delete, and compressed name when the
        // name is stored one byte per character.
        let flags: u16 = if name.is_ascii() {
            0x2C
        } else {
            0x0C
        };
        {
            let p = crate::hbin::payload_mut(self.data.as_mut_slice(), nk_off).unwrap();
            crate::bytes::wr16(p, 2, flags);
        }
        proof {
            let d4 = self.data@;
            let k = crate::cell::key_node_bytes(name@, FREE, sk_off);
            assert forall|i: int| 0 <= i < 0x1000 implies #[trigger] d4[i] == d3[i] by {}
            lemma_wf_kept(s3, d4, self.header);
            assert(d4[x - 4] == d3[x - 4] && d4[x - 3] == d3[x - 3] && d4[x - 2] == d3[x - 2] && d4[x
                - 1] == d3[x - 1]);
            assert(crate::hbin::payload_range(d4, nk_off) == crate::hbin::payload_range(d3, nk_off));
            let p = d4.subrange(x, y);
            assert forall|i: int| 0 <= i < k.len() && i != 2 && i != 3 implies #[trigger] p[i] == k[i] by {
                assert(d3.subrange(x, x + k.len())[i] == k[i]);
            }
            crate::cell::lemma_root_node_parse(name@, FREE, sk_off, p, nk_off);
            lemma_root_flags(d4, nk_off, p, name@);
            crate::cell::lemma_key_node_at(d4, nk_off);
            assert forall|i: int| 0 <= i < d3.len() && !(x + 2 <= i < x + 4) implies #[trigger] d4[i] == d3[i] by {
                if i >= y {
                    assert(d4[i] == d3.subrange(y, d3.len() as int)[i - y]);
                } else if i < x {
                    assert(d4[i] == d3.subrange(0, x)[i]);
                }
            }
            assert(alloc_in_place(old(self)@, self@, nk_off, k.len() as int)) by {
                reveal(alloc_in_place);
            }
            if tiled(old(self)@.data, old(self)@.header.hive_bins_size) && used_tile(
                old(self)@.data,
                sk_off + 0x1000,
            ) {
                assert(used_tile(d3, sk_off + 0x1000));
                assert forall|i: int| 0 <= i < d3.len() && !(x <= i < y) implies #[trigger] d4[i] == d3[i] by {
                    if i >= y {
                        assert(d4[i] == d3.subrange(y, d3.len() as int)[i - y]);
                    } else {
                        assert(d4[i] == d3.subrange(0, x)[i]);
                    }
                }
                lemma_payload_write_tiles(d3, d4, nk_off, sk_off);
                assert(cell_kept(old(self)@.data, d4, sk_off) && is_tile(old(self)@.data, sk_off + 0x1000)) by {
                    lemma_used_kept(old(self)@.data, d3, sk_off);
                    lemma_cell_kept_trans(old(self)@.data, d3, d4, sk_off);
                }
                assert(crate::cell::cell_payload_spec(d4, sk_off) == crate::cell::cell_payload_spec(
                    old(self)@.data,
                    sk_off,
                )) by {
                    lemma_cell_kept_reads(old(self)@.data, d4, sk_off);
                }
                if crate::cell::incr_refcount_spec(old(self)@.data, sk_off) is Ok {
                    lemma_incr_kept(old(self)@.data, d4, sk_off);
                }
            }
        }
        nk_off
    }

    /// Creates a valid empty hive: base block, one hive bin, a root key named
    /// `root_name` and a minimal shareable security descriptor.
    pub fn new_empty(root_name: &str) -> (h: Self)
        requires
            76 + crate::cell::name_to_bytes(root_name@, vstd::utf8::is_ascii_chars(root_name@)).len()
                <= 0x7FFF_0000,
        ensures
            h.wf(),
            h@.data.len() <= crate::hbin::max_hive_len(),
            h@.header.primary_sequence == 1,
            h@.header.secondary_sequence == 1,
            h@.header.major_version == 1,
            h@.header.minor_version == 5,
            key_node_at(h@.data, h@.header.root_cell_offset) matches Ok(nk) && nk.name
                == root_name_read_back(root_name@) && nk.subkey_count == 0 && nk.subkey_list_offset
                == FREE && nk.value_count == 0 && nk.value_list_offset == FREE,
            crate::cell::name_to_bytes(root_name@, vstd::utf8::is_ascii_chars(root_name@)).len()
                <= 0xFFFF ==> (key_node_at(h@.data, h@.header.root_cell_offset) matches Ok(nk)
                && nk.name == root_name@),
            h@.data.len() == 0x2000 ==> fresh_root(h@),
            crate::cell::name_to_bytes(root_name@, vstd::utf8::is_ascii_chars(root_name@)).len()
                <= 0xF58 ==> {
                &&& h@.data.len() == 0x2000
                &&& h@.header.hive_bins_size == 0x1000
                &&& h@.header.root_cell_offset == 0x50
                &&& key_node_at(h@.data, 0x50) matches Ok(nk) && nk.security_offset == 0x20
                &&& security_linked(h@.data, 0x20)
                &&& root_flags_ok(h@.data, 0x50, root_name@)
            },
    {
        let data = fresh_hive_bytes();
        let ghost d0 = data@;
        let header = Header::parse_unchecked(data.as_slice());
        let mut hive = Hive { data, header };
        let ghost h1 = hive@;
        let sk_off = hive.add_security();
        let ghost h2 = hive@;
        let nk_off = hive.add_root_node(root_name, sk_off);
        let ghost d5 = hive.data@;
        let ghost hbs5 = hive.header.hive_bins_size;
        proof {
            let n = crate::cell::name_to_bytes(root_name@, vstd::utf8::is_ascii_chars(root_name@)).len();
            if n <= 0xF58 {
                lemma_fresh_no_growth(h1, h2, hive@, sk_off, nk_off, 76 + n as int);
            }
            if n <= 0xFFFF {
                lemma_root_name_read_back(root_name@);
            }
        }
        crate::bytes::wr(hive.data.as_mut_slice(), 0x24, nk_off);
        hive.header = Header::parse_unchecked(hive.data.as_slice());
        proof {
            let d6 = hive.data@;
            crate::bytes::lemma_put_u32(d5, 0x24, nk_off);
            if d6.len() == 0x2000 {
                crate::tiling::lemma_bins_write(d5, d6, 0x1000, d5.len() as int, 0, 0x24, 0x28);
                assert(d6[0x28] == d0[0x28] && d6[0x29] == d0[0x29] && d6[0x2A] == d0[0x2A]
                    && d6[0x2B] == d0[0x2B]);
                assert(hive.header.hive_bins_size == 0x1000);
                assert(used_tile(d6, nk_off + 0x1000));
                assert(used_tile(d6, sk_off + 0x1000));
                crate::tiling::lemma_tile_bounds(d5, sk_off + 0x1000);
                assert(cell_kept(d5, d6, sk_off));
                lemma_incr_kept(d5, d6, sk_off);
                lemma_cell_kept_reads(d5, d6, sk_off);
                crate::tiling::lemma_tile_bounds(d5, nk_off + 0x1000);
                assert(cell_kept(d5, d6, nk_off));
                lemma_cell_kept_reads(d5, d6, nk_off);
            }
            crate::cell::lemma_key_node_same(d5, d6, nk_off);
            assert(d6[0] == d0[0] && d6[1] == d0[1] && d6[2] == d0[2] && d6[3] == d0[3]);
            assert(d6[4] == d0[4] && d6[5] == d0[5] && d6[6] == d0[6] && d6[7] == d0[7]);
            assert(d6[8] == d0[8] && d6[9] == d0[9] && d6[10] == d0[10] && d6[11] == d0[11]);
            assert(d6[0x14] == d0[0x14] && d6[0x15] == d0[0x15] && d6[0x16] == d0[0x16] && d6[0x17]
                == d0[0x17]);
            assert(d6[0x18] == d0[0x18] && d6[0x19] == d0[0x19] && d6[0x1A] == d0[0x1A] && d6[0x1B]
                == d0[0x1B]);
        }
        hive
    }
}

} // verus!

verus! {

/// The position in `offs` of the first value node named `name`.
pub open spec fn first_named(d: Seq<u8>, offs: Seq<u32>, name: Seq<char>) -> Option<int>
    decreases offs.len(),
{
    if offs.len() == 0 {
        None
    } else if value_node_at(d, offs[0]) matches Ok(vk) && name_order(vk.name, name) == 0 {
        Some(0)
    } else {
        match first_named(d, offs.skip(1), name) {
            Some(k) => Some(k + 1),
            None => None,
        }
    }
}

/// The entries of `offs` whose value node is not named `name`, in order.
pub open spec fn values_without(d: Seq<u8>, offs: Seq<u32>, name: Seq<char>) -> Seq<u32>
    decreases offs.len(),
{
    if offs.len() == 0 {
        Seq::empty()
    } else if value_node_at(d, offs[0]) matches Ok(vk) && name_order(vk.name, name) == 0 {
        values_without(d, offs.skip(1), name)
    } else {
        seq![offs[0]] + values_without(d, offs.skip(1), name)
    }
}

/// Room in a hive of `len` bytes for what a subkey insertion allocates: a
/// key node and a subkey list, each with the room of a new bin, within
/// 32-bit offsets.
pub open spec fn insert_room(len: int) -> bool {
    len + 0x10_0000 <= 0x1_0000_1000
}

/// Room in the hive for what a value write under the key node at `nk_off`
/// allocates: a data cell and a value node of at most 0x1_4000 bytes
/// together, and a value list one entry longer than the key's count,
/// within the 32-bit offsets and signed cell sizes.
pub open spec fn set_room(d: Seq<u8>, nk_off: u32) -> bool {
    let count = key_node_at(d, nk_off)->Ok_0.value_count;
    &&& d.len() + 4 * count + 0x2_5000 <= 0x1_0000_1000
    &&& 4 * count + 4 <= 0x7FFF_0000
}

/// A payload fits where the hive, the payload and a bin's room stay within
/// 32-bit offsets and the payload within a signed cell size.
proof fn lemma_room_within(len: int, p: int)
    requires
        0 <= len,
        0 <= p <= 0x7FFF_0000,
        len + p + 0x3000 <= 0x1_0000_1000,
    ensures
        room_fits(len, p),
{
}

/// How much a write of a value of `vlen` bytes named `name` under the key
/// node at `nk_off` of `d` may grow the hive: a data cell, a value node and
/// a new value list one entry longer, each with the room of a new bin.
pub open spec fn set_growth(d: Seq<u8>, nk_off: u32, name: Seq<char>, vlen: int) -> int {
    vlen + crate::cell::name_to_bytes(name, vstd::utf8::is_ascii_chars(name)).len() + 4
        * key_node_at(d, nk_off)->Ok_0.value_count + 0x6024
}

/// A value list holds at most as many entries as its count says.
proof fn lemma_value_list_len(d: Seq<u8>, ol: u32, count: u32)
    requires
        value_list(d, ol, count) is Ok,
    ensures
        value_list(d, ol, count)->Ok_0.len() <= count,
{
    if !(count == 0 || ol == 0 || ol == FREE) {
        let p = crate::cell::cell_payload_spec(d, ol)->Ok_0;
        crate::cell::lemma_offsets_fit(p, count as nat);
    }
}

/// The value list `l2` after a write of a value into the list `offs`: the
/// entry at `at` replaced, or, with no such entry, one entry appended.
pub open spec fn set_listing(offs: Seq<u32>, at: Option<int>, l2: Seq<u32>) -> bool {
    match at {
        Some(i) => 0 <= i < offs.len() && l2 == offs.update(i, l2[i]),
        None => l2.len() == offs.len() + 1 && l2 == offs.push(l2.last()),
    }
}

/// The key node at `nk_off` of `d2` is `nk` with a value count of `count`
/// and a value list that reads as `l2`.
pub open spec fn lists_values(d2: Seq<u8>, nk_off: u32, nk: KeyNodeView, l2: Seq<u32>, count: u32) -> bool {
    match key_node_at(d2, nk_off) {
        Ok(nk2) => {
            &&& nk2.name == nk.name
            &&& nk2.subkey_count == nk.subkey_count
            &&& nk2.subkey_list_offset == nk.subkey_list_offset
            &&& nk2.security_offset == nk.security_offset
            &&& nk2.value_count == count
            &&& value_list(d2, nk2.value_list_offset, count) == Ok::<Seq<u32>, RegError>(l2)
        },
        Err(_) => false,
    }
}

/// After a write of the value `name` to the key at `nk_off`, its value
/// list is the old one with the first entry of that name replaced (the
/// count unchanged), or, with no entry of that name, the old entries and
/// the new one after them (the count one more than the old entries).
pub open spec fn values_after_set(d0: Seq<u8>, d2: Seq<u8>, nk_off: u32, name: Seq<char>) -> bool {
    match key_node_at(d0, nk_off) {
        Ok(nk) => match value_list(d0, nk.value_list_offset, nk.value_count) {
            Ok(offs) => match key_node_at(d2, nk_off) {
                Ok(nk2) => match value_list(d2, nk2.value_list_offset, nk2.value_count) {
                    Ok(l2) => {
                        let at = first_named(d0, offs, name);
                        &&& lists_values(
                            d2,
                            nk_off,
                            nk,
                            l2,
                            if at is Some {
                                nk.value_count
                            } else {
                                (offs.len() + 1) as u32
                            },
                        )
                        &&& set_listing(offs, at, l2)
                    },
                    Err(_) => false,
                },
                Err(_) => false,
            },
            Err(_) => false,
        },
        Err(_) => false,
    }
}

/// After a write of the value `name` to the key at `nk_off`: the entry it
/// wrote (at the first entry of that name, or after the old entries) is a
/// node of that name, and the old entries' nodes but the replaced one read
/// as before.
pub open spec fn set_nodes(d0: Seq<u8>, d2: Seq<u8>, nk_off: u32, name: Seq<char>) -> bool {
    match (key_node_at(d0, nk_off), key_node_at(d2, nk_off)) {
        (Ok(nk), Ok(nk2)) => match (
            value_list(d0, nk.value_list_offset, nk.value_count),
            value_list(d2, nk2.value_list_offset, nk2.value_count),
        ) {
            (Ok(offs), Ok(l2)) => {
                let k = match first_named(d0, offs, name) {
                    Some(i) => i,
                    None => offs.len() as int,
                };
                &&& 0 <= k < l2.len()
                &&& value_node_at(d2, l2[k]) matches Ok(vk) && name_order(vk.name, name) == 0
                &&& forall|j: int|
                    0 <= j < offs.len() && j != k ==> #[trigger] value_node_at(d2, offs[j])
                        == value_node_at(d0, offs[j])
            },
            _ => false,
        },
        _ => false,
    }
}

/// After a delete of the value `name` from the key at `nk_off`, its value
/// list is the old one without the entries of that name, in order, and
/// the count is their number.
pub open spec fn values_after_delete(d0: Seq<u8>, d2: Seq<u8>, nk_off: u32, name: Seq<char>) -> bool {
    match key_node_at(d0, nk_off) {
        Ok(nk) => match value_list(d0, nk.value_list_offset, nk.value_count) {
            Ok(offs) => lists_values(
                d2,
                nk_off,
                nk,
                values_without(d0, offs, name),
                values_without(d0, offs, name).len() as u32,
            ),
            Err(_) => false,
        },
        Err(_) => false,
    }
}

/// Dropping the entries named `name` from entries of other names followed
/// by one of that name gives back the entries of other names.
proof fn lemma_without_push(d0: Seq<u8>, d1: Seq<u8>, offs: Seq<u32>, v: u32, name: Seq<char>)
    requires
        first_named(d0, offs, name) is None,
        forall|j: int| 0 <= j < offs.len() ==> #[trigger] value_node_at(d1, offs[j]) == value_node_at(d0, offs[j]),
        value_node_at(d1, v) matches Ok(vk) && name_order(vk.name, name) == 0,
    ensures
        values_without(d1, offs.push(v), name) == offs,
    decreases offs.len(),
{
    let l = offs.push(v);
    if offs.len() == 0 {
        assert(l.skip(1) =~= Seq::<u32>::empty());
        assert(l[0] == v);
        assert(values_without(d1, l.skip(1), name) == Seq::<u32>::empty());
        assert(values_without(d1, l, name) == values_without(d1, l.skip(1), name));
        assert(offs =~= Seq::<u32>::empty());
    } else {
        assert(l[0] == offs[0]);
        assert(value_node_at(d1, offs[0]) == value_node_at(d0, offs[0]));
        let t = offs.skip(1);
        assert(l.skip(1) =~= t.push(v));
        assert forall|j: int| 0 <= j < t.len() implies #[trigger] value_node_at(d1, t[j]) == value_node_at(d0, t[j]) by {
            assert(t[j] == offs[j + 1]);
            assert(value_node_at(d1, offs[j + 1]) == value_node_at(d0, offs[j + 1]));
        }
        lemma_without_push(d0, d1, t, v, name);
        assert(!(value_node_at(d0, offs[0]) matches Ok(vk) && name_order(vk.name, name) == 0));
        assert(values_without(d1, l, name) == seq![l[0]] + values_without(d1, l.skip(1), name));
        assert(offs =~= seq![offs[0]] + t);
    }
}

/// Deleting a value that a write added (the key had no value of that name)
/// gives back the key's old value list, in order, counted.
pub proof fn lemma_delete_undoes_set(d0: Seq<u8>, d1: Seq<u8>, d2: Seq<u8>, nk_off: u32, name: Seq<char>)
    requires
        values_after_set(d0, d1, nk_off, name),
        set_nodes(d0, d1, nk_off, name),
        key_node_at(d0, nk_off) matches Ok(nk) && value_list(d0, nk.value_list_offset, nk.value_count) matches Ok(
            offs,
        ) && first_named(d0, offs, name) is None,
        values_after_delete(d1, d2, nk_off, name),
    ensures
        key_node_at(d0, nk_off) matches Ok(nk) && value_list(d0, nk.value_list_offset, nk.value_count) matches Ok(
            offs,
        ) && lists_values(d2, nk_off, nk, offs, offs.len() as u32),
{
    let nk = key_node_at(d0, nk_off)->Ok_0;
    let offs = value_list(d0, nk.value_list_offset, nk.value_count)->Ok_0;
    let nk1 = key_node_at(d1, nk_off)->Ok_0;
    let l1 = value_list(d1, nk1.value_list_offset, nk1.value_count)->Ok_0;
    assert(l1 == offs.push(l1.last()));
    assert(l1[offs.len() as int] == l1.last());
    lemma_without_push(d0, d1, offs, l1.last(), name);
}

/// The first entry named `name` is at `i` (or there is none, `i` being the
/// length) when the entries before it read, in `d`, as other names, and
/// `d` reads the entries as `d0` does.
proof fn lemma_first_named_at(d0: Seq<u8>, d: Seq<u8>, offs: Seq<u32>, i: int, name: Seq<char>)
    requires
        0 <= i <= offs.len(),
        forall|j: int| 0 <= j < offs.len() ==> #[trigger] value_node_at(d, offs[j]) == value_node_at(d0, offs[j]),
        forall|k: int| 0 <= k < i ==> #[trigger] other_value(d, offs[k], name),
        i < offs.len() ==> (value_node_at(d, offs[i]) matches Ok(vk) && name_order(vk.name, name) == 0),
    ensures
        first_named(d0, offs, name) == (if i < offs.len() {
            Some(i)
        } else {
            None::<int>
        }),
    decreases offs.len(),
{
    reveal(other_value);
    if offs.len() > 0 {
        assert(value_node_at(d, offs[0]) == value_node_at(d0, offs[0]));
        if i > 0 {
            assert(other_value(d, offs[0], name));
            let t = offs.skip(1);
            assert forall|j: int| 0 <= j < t.len() implies #[trigger] value_node_at(d, t[j]) == value_node_at(d0, t[j]) by {
                assert(t[j] == offs[j + 1]);
                assert(value_node_at(d, offs[j + 1]) == value_node_at(d0, offs[j + 1]));
            }
            assert forall|k: int| 0 <= k < i - 1 implies #[trigger] other_value(d, t[k], name) by {
                assert(t[k] == offs[k + 1]);
                assert(other_value(d, offs[k + 1], name));
            }
            if i < offs.len() {
                assert(t[i - 1] == offs[i]);
            }
            lemma_first_named_at(d0, d, t, i - 1, name);
        }
    }
}

/// A filtered list is the list without the entries of that name.
proof fn lemma_filtered_without(d: Seq<u8>, offs: Seq<u32>, kept: Seq<u32>, name: Seq<char>)
    requires
        filtered(d, offs, kept, name),
    ensures
        kept == values_without(d, offs, name),
    decreases offs.len(),
{
    if offs.len() == 0 {
        assert(kept =~= Seq::<u32>::empty());
    } else if name_order(value_node_at(d, offs[0])->Ok_0.name, name) == 0 {
        lemma_filtered_without(d, offs.skip(1), kept, name);
    } else {
        lemma_filtered_without(d, offs.skip(1), kept.skip(1), name);
        assert(kept =~= seq![offs[0]] + kept.skip(1));
    }
}

/// The value node at `off` reads as a node not named `name`.
#[verifier::opaque]
pub open spec fn other_value(d: Seq<u8>, off: u32, name: Seq<char>) -> bool {
    value_node_at(d, off) matches Ok(vk) && name_order(vk.name, name) != 0
}

/// A lookup by name passes the value nodes of other names and stops at the
/// first one of that name.
proof fn lemma_find_first(d: Seq<u8>, a: Seq<u32>, i: int, name: Seq<char>, v: ValueModel)
    requires
        0 <= i < a.len(),
        forall|k: int| 0 <= k < i ==> #[trigger] other_value(d, a[k], name),
        value_node_at(d, a[i]) matches Ok(vk) && name_order(vk.name, name) == 0 && value_of(d, vk)
            == Some(Ok::<ValueModel, RegError>(v)),
    ensures
        find_value(d, a, name) == Some(Lookup::Found(v)),
    decreases a.len(),
{
    reveal(other_value);
    if i > 0 {
        assert(other_value(d, a[0], name));
        assert forall|k: int| 0 <= k < i - 1 implies #[trigger] other_value(d, a.skip(1)[k], name) by {
            assert(other_value(d, a[k + 1], name));
        }
        lemma_find_first(d, a.skip(1), i - 1, name, v);
    }
}

/// A lookup by name among value nodes of other names finds nothing.
proof fn lemma_find_none(d: Seq<u8>, a: Seq<u32>, name: Seq<char>)
    requires
        forall|k: int| 0 <= k < a.len() ==> #[trigger] other_value(d, a[k], name),
    ensures
        find_value(d, a, name) == Some(Lookup::<ValueModel>::NoValue),
    decreases a.len(),
{
    reveal(other_value);
    if a.len() > 0 {
        assert(other_value(d, a[0], name));
        assert forall|k: int| 0 <= k < a.len() - 1 implies #[trigger] other_value(d, a.skip(1)[k], name) by {
            assert(other_value(d, a[k + 1], name));
        }
        lemma_find_none(d, a.skip(1), name);
    }
}

/// The bytes of an allocated cell are kept from `d` to `d2`.
pub open spec fn cell_kept(d: Seq<u8>, d2: Seq<u8>, off: u32) -> bool {
    let c = off + 0x1000;
    &&& c + crate::tiling::size_at(d, c) <= d2.len()
    &&& forall|i: int| c <= i < c + crate::tiling::size_at(d, c) ==> #[trigger] d2[i] == d[i]
}

/// A cell whose bytes are kept reads the same.
proof fn lemma_cell_kept_reads(d: Seq<u8>, d2: Seq<u8>, off: u32)
    requires
        is_tile(d, off + 0x1000),
        cell_kept(d, d2, off),
    ensures
        crate::cell::cell_payload_spec(d2, off) == crate::cell::cell_payload_spec(d, off),
        key_node_at(d2, off) == key_node_at(d, off),
        value_node_at(d2, off) == value_node_at(d, off),
        forall|count: u32| #[trigger] value_list(d2, off, count) == value_list(d, off, count),
{
    crate::tiling::lemma_tile_bounds(d, off + 0x1000);
    crate::cell::lemma_cell_frame(d, d2, off);
}

/// Allocated cells keep their bytes across `keeps_used`.
proof fn lemma_used_kept(d: Seq<u8>, d2: Seq<u8>, off: u32)
    requires
        used_tile(d, off + 0x1000),
        keeps_used(d, d2),
    ensures
        cell_kept(d, d2, off),
        used_tile(d2, off + 0x1000),
        crate::tiling::size_at(d2, off + 0x1000) == crate::tiling::size_at(d, off + 0x1000),
{
    let c = off + 0x1000;
    assert(used_tile(d2, c) && crate::tiling::size_at(d2, c) == crate::tiling::size_at(d, c));
    crate::tiling::lemma_tile_bounds(d2, c);
    assert forall|i: int| c <= i < c + crate::tiling::size_at(d, c) implies #[trigger] d2[i] == d[i] by {
        assert(used_tile(d, c));
    }
}

/// A write of the bytes `[a, b)` keeps every cell of a tiled hive apart
/// from the one holding them.
proof fn lemma_write_keeps(d: Seq<u8>, d2: Seq<u8>, w: int, a: int, b: int, off: u32)
    requires
        crate::tiling::bins_tile(d, 0x1000, d.len() as int),
        is_tile(d, w),
        w <= a <= b <= w + crate::tiling::size_at(d, w),
        is_tile(d, off + 0x1000),
        off + 0x1000 != w,
        d2.len() == d.len(),
        forall|i: int| 0 <= i < d.len() && !(a <= i < b) ==> #[trigger] d2[i] == d[i],
    ensures
        cell_kept(d, d2, off),
{
    let c = off + 0x1000;
    crate::tiling::lemma_tiles_apart_at(d, c, w);
    crate::tiling::lemma_tile_bounds(d, w);
}

} // verus!

verus! {

/// The little-endian word of (at most) four bytes gives them back.
proof fn lemma_le32_padded(b: Seq<u8>)
    requires
        b.len() <= 4,
    ensures
        crate::bytes::le32(crate::value::padded_u32(b)).subrange(0, b.len() as int) == b,
{
    let b0 = crate::value::byte_or_zero(b, 0);
    let b1 = crate::value::byte_or_zero(b, 1);
    let b2 = crate::value::byte_or_zero(b, 2);
    let b3 = crate::value::byte_or_zero(b, 3);
    let v = crate::value::padded_u32(b);
    assert(v == (b0 as u32) + (b1 as u32) * 256 + (b2 as u32) * 65536 + (b3 as u32) * 16777216);
    assert(((b0 as u32) + (b1 as u32) * 256 + (b2 as u32) * 65536 + (b3 as u32) * 16777216) % 256
        == b0 as u32 && (((b0 as u32) + (b1 as u32) * 256 + (b2 as u32) * 65536 + (b3 as u32)
        * 16777216) / 256) % 256 == b1 as u32 && (((b0 as u32) + (b1 as u32) * 256 + (b2 as u32)
        * 65536 + (b3 as u32) * 16777216) / 65536) % 256 == b2 as u32 && ((b0 as u32) + (b1 as u32)
        * 256 + (b2 as u32) * 65536 + (b3 as u32) * 16777216) / 16777216 == b3 as u32)
        by (bit_vector);
    assert(crate::bytes::le32(v).subrange(0, b.len() as int) =~= b);
}

/// The value node `vk`, written for the value `m`, reads back as `m`.
proof fn lemma_value_stored(d: Seq<u8>, vk: crate::cell::ValueNodeView, bytes: Seq<u8>, m: ValueModel)
    requires
        bytes == crate::value::value_bytes(m),
        crate::value::survives_encoding(m),
        vk.ty == crate::value::value_type(m),
        vk.data_size as int == bytes.len(),
        bytes.len() <= crate::cell::BIG_DATA_THRESHOLD,
        vk.inline == (bytes.len() <= 4),
        vk.inline ==> vk.data_offset == crate::value::padded_u32(bytes),
        !vk.inline ==> (crate::cell::cell_payload_spec(d, vk.data_offset) matches Ok(c) && c.len()
            >= bytes.len() && c.subrange(0, bytes.len() as int) == bytes),
    ensures
        value_of(d, vk) == Some(Ok::<ValueModel, RegError>(m)),
{
    crate::cell::lemma_value_data_small(d, vk);
    crate::value::lemma_value_roundtrip(m);
    if vk.inline {
        lemma_le32_padded(bytes);
    }
}

/// A value node reads the same value where its data cell reads the same.
proof fn lemma_value_of_same(d: Seq<u8>, d2: Seq<u8>, vk: crate::cell::ValueNodeView)
    requires
        vk.data_size as int <= crate::cell::BIG_DATA_THRESHOLD,
        !vk.inline && vk.data_size != 0 ==> crate::cell::cell_payload_spec(d2, vk.data_offset)
            == crate::cell::cell_payload_spec(d, vk.data_offset),
    ensures
        value_of(d2, vk) == value_of(d, vk),
{
    crate::cell::lemma_value_data_small(d, vk);
    crate::cell::lemma_value_data_small(d2, vk);
}

/// Two writes, each inside its own cell of a tiled hive, keep every other
/// cell.
#[verifier::spinoff_prover]
proof fn lemma_two_writes_keep(
    d: Seq<u8>,
    d2: Seq<u8>,
    w1: int,
    a1: int,
    b1: int,
    w2: int,
    a2: int,
    b2: int,
    off: u32,
)
    requires
        crate::tiling::bins_tile(d, 0x1000, d.len() as int),
        is_tile(d, w1),
        w1 <= a1 <= b1 <= w1 + crate::tiling::size_at(d, w1),
        is_tile(d, w2),
        w2 <= a2 <= b2 <= w2 + crate::tiling::size_at(d, w2),
        is_tile(d, off + 0x1000),
        off + 0x1000 != w1,
        off + 0x1000 != w2,
        d2.len() == d.len(),
        forall|i: int| 0 <= i < d.len() && !(a1 <= i < b1) && !(a2 <= i < b2) ==> #[trigger] d2[i] == d[i],
    ensures
        cell_kept(d, d2, off),
{
    let c = off + 0x1000;
    crate::tiling::lemma_tiles_apart_at(d, c, w1);
    crate::tiling::lemma_tiles_apart_at(d, c, w2);
    crate::tiling::lemma_tile_bounds(d, w1);
    crate::tiling::lemma_tile_bounds(d, w2);
}

/// A cell kept from `d` to `d2` and from `d2` to `d3` is kept from `d` to
/// `d3`, and reads the same.
proof fn lemma_kept_reads2(d: Seq<u8>, d2: Seq<u8>, d3: Seq<u8>, off: u32)
    requires
        used_tile(d, off + 0x1000),
        keeps_used(d, d2),
        cell_kept(d2, d3, off),
    ensures
        cell_kept(d, d3, off),
        crate::cell::cell_payload_spec(d3, off) == crate::cell::cell_payload_spec(d, off),
        key_node_at(d3, off) == key_node_at(d, off),
        value_node_at(d3, off) == value_node_at(d, off),
        forall|count: u32| #[trigger] value_list(d3, off, count) == value_list(d, off, count),
{
    lemma_used_kept(d, d2, off);
    lemma_cell_kept_reads(d, d2, off);
    lemma_cell_kept_reads(d2, d3, off);
}

} // verus!

verus! {

/// A word written inside `[a, b)` lands in the slice `[a, b)`.
proof fn lemma_put_in_slice(s: Seq<u8>, a: int, b: int, k: int, v: u32)
    requires
        0 <= a,
        0 <= k,
        a + k + 4 <= b <= s.len(),
    ensures
        crate::bytes::put_u32(s, a + k, v).subrange(a, b) == crate::bytes::put_u32(s.subrange(a, b), k, v),
{
    assert(crate::bytes::put_u32(s, a + k, v).subrange(a, b) =~= crate::bytes::put_u32(s.subrange(a, b), k, v));
}

/// The payload of a key node holds at least its 76-byte header.
proof fn lemma_key_node_room(d: Seq<u8>, off: u32)
    requires
        key_node_at(d, off) is Ok,
    ensures
        crate::hbin::payload_range(d, off) matches Ok((x, y)) && y - x >= 76 && x == off + 0x1004,
        crate::cell::parse_key_node(d.subrange(off + 0x1004, off + 0x1000 + crate::tiling::size_at(d, off + 0x1000)), off) == key_node_at(d, off),
{
    crate::cell::lemma_key_node_at(d, off);
}

/// A cell allocated before two writes inside other cells reads the same
/// after them.
proof fn lemma_kept_through(
    s2: Seq<u8>,
    s3: Seq<u8>,
    s6: Seq<u8>,
    w1: int,
    a1: int,
    b1: int,
    w2: int,
    a2: int,
    b2: int,
    off: u32,
)
    requires
        crate::tiling::bins_tile(s3, 0x1000, s3.len() as int),
        used_tile(s2, off + 0x1000),
        keeps_used(s2, s3),
        is_tile(s3, w1),
        w1 <= a1 <= b1 <= w1 + crate::tiling::size_at(s3, w1),
        is_tile(s3, w2),
        w2 <= a2 <= b2 <= w2 + crate::tiling::size_at(s3, w2),
        off + 0x1000 != w1,
        off + 0x1000 != w2,
        s6.len() == s3.len(),
        forall|i: int| 0 <= i < s3.len() && !(a1 <= i < b1) && !(a2 <= i < b2) ==> #[trigger] s6[i] == s3[i],
    ensures
        crate::cell::cell_payload_spec(s6, off) == crate::cell::cell_payload_spec(s2, off),
        key_node_at(s6, off) == key_node_at(s2, off),
        value_node_at(s6, off) == value_node_at(s2, off),
        cell_kept(s2, s6, off),
{
    lemma_used_kept(s2, s3, off);
    lemma_two_writes_keep(s3, s6, w1, a1, b1, w2, a2, b2, off);
    lemma_kept_reads2(s2, s3, s6, off);
}

/// The writes that follow the new value list in the append path: the old
/// list's size field, then the key node's value list and count.
proof fn lemma_append_writes(
    s3: Seq<u8>,
    s4: Seq<u8>,
    s6: Seq<u8>,
    ol: u32,
    nk_off: u32,
    l_off: u32,
    count: u32,
)
    requires
        s4.len() == s3.len(),
        nk_off + 0x1004 + 44 <= s3.len(),
        forall|i: int|
            0 <= i < s3.len() && !(ol != 0 && ol != FREE && ol + 0x1000 <= i < ol + 0x1004)
                ==> #[trigger] s4[i] == s3[i],
        s6 == crate::bytes::put_u32(
            crate::bytes::put_u32(s4, nk_off + 0x1004 + 40, l_off),
            nk_off + 0x1004 + 36,
            count,
        ),
    ensures
        s6.len() == s3.len(),
        forall|i: int|
            0 <= i < s3.len() && !(ol != 0 && ol != FREE && ol + 0x1000 <= i < ol + 0x1004) && !(
            nk_off + 0x1004 + 36 <= i < nk_off + 0x1004 + 44) ==> #[trigger] s6[i] == s3[i],
{
    let a = nk_off + 0x1004;
    let s5 = crate::bytes::put_u32(s4, a + 40, l_off);
    crate::bytes::lemma_put_u32(s4, a + 40, l_off);
    crate::bytes::lemma_put_u32(s5, a + 36, count);
}

/// The key node after the append path: its new list and count, the rest as
/// it was.
#[verifier::spinoff_prover]
proof fn lemma_append_key(
    s2: Seq<u8>,
    s3: Seq<u8>,
    s4: Seq<u8>,
    s6: Seq<u8>,
    nk_off: u32,
    nk: KeyNodeView,
    l_off: u32,
    count: u32,
)
    requires
        crate::tiling::bins_tile(s3, 0x1000, s3.len() as int),
        used_tile(s2, nk_off + 0x1000),
        key_node_at(s2, nk_off) == Ok::<KeyNodeView, RegError>(nk),
        keeps_used(s2, s3),
        nk.value_list_offset != 0 && nk.value_list_offset != FREE ==> is_tile(
            s3,
            nk.value_list_offset + 0x1000,
        ) && nk.value_list_offset != nk_off,
        s4.len() == s3.len(),
        forall|i: int|
            0 <= i < s3.len() && !(nk.value_list_offset != 0 && nk.value_list_offset != FREE
                && nk.value_list_offset + 0x1000 <= i < nk.value_list_offset + 0x1004)
                ==> #[trigger] s4[i] == s3[i],
        s6 == crate::bytes::put_u32(
            crate::bytes::put_u32(s4, nk_off + 0x1004 + 40, l_off),
            nk_off + 0x1004 + 36,
            count,
        ),
    ensures
        key_node_at(s6, nk_off) == Ok::<KeyNodeView, RegError>(
            KeyNodeView { value_list_offset: l_off, value_count: count, ..nk },
        ),
{
    let ol = nk.value_list_offset;
    let c_nk = nk_off + 0x1000;
    let a = nk_off + 0x1004;
    lemma_key_node_room(s2, nk_off);
    lemma_used_kept(s2, s3, nk_off);
    let sz = crate::tiling::size_at(s2, c_nk);
    if ol != 0 && ol != FREE {
        crate::tiling::lemma_tile_bounds(s3, ol + 0x1000);
        lemma_write_keeps(s3, s4, ol + 0x1000, ol + 0x1000, ol + 0x1004, nk_off);
    } else {
        assert(s4 =~= s3);
    }
    assert(s4.subrange(a, c_nk + sz) =~= s2.subrange(a, c_nk + sz)) by {
        assert forall|i: int| a <= i < c_nk + sz implies s4[i] == s2[i] by {
            assert(s3[i] == s2[i]);
        }
    }
    let s5 = crate::bytes::put_u32(s4, a + 40, l_off);
    crate::bytes::lemma_put_u32(s4, a + 40, l_off);
    crate::bytes::lemma_put_u32(s5, a + 36, count);
    assert(s4[c_nk] == s2[c_nk] && s4[c_nk + 1] == s2[c_nk + 1] && s4[c_nk + 2] == s2[c_nk + 2]
        && s4[c_nk + 3] == s2[c_nk + 3]);
    assert(s6[c_nk] == s2[c_nk] && s6[c_nk + 1] == s2[c_nk + 1] && s6[c_nk + 2] == s2[c_nk + 2]
        && s6[c_nk + 3] == s2[c_nk + 3]);
    assert(crate::tiling::size_at(s6, c_nk) == sz);
    lemma_put_in_slice(s4, a, c_nk + sz, 40, l_off);
    lemma_put_in_slice(s5, a, c_nk + sz, 36, count);
    let p2 = s2.subrange(a, c_nk + sz);
    crate::cell::lemma_key_node_values(p2, nk_off, l_off, count);
    crate::cell::lemma_key_node_at(s6, nk_off);
}

/// The state facts the append path of a value write establishes.
#[verifier::opaque]
pub open spec fn append_facts(
    s2: Seq<u8>,
    s3: Seq<u8>,
    s4: Seq<u8>,
    s6: Seq<u8>,
    nk_off: u32,
    nk: KeyNodeView,
    existing: Seq<u32>,
    v_off: u32,
    vk: crate::cell::ValueNodeView,
    l_off: u32,
    name: Seq<char>,
) -> bool {
    &&& crate::tiling::bins_tile(s2, 0x1000, s2.len() as int)
    &&& used_tile(s2, nk_off + 0x1000)
    &&& key_node_at(s2, nk_off) == Ok::<KeyNodeView, RegError>(nk)
    &&& (nk.value_list_offset != 0 && nk.value_list_offset != FREE ==> used_tile(
        s2,
        nk.value_list_offset + 0x1000,
    ) && nk.value_list_offset != nk_off)
    &&& (forall|j: int|
        0 <= j < existing.len() ==> #[trigger] used_tile(s2, existing[j] + 0x1000) && existing[j]
            != nk_off && existing[j] != nk.value_list_offset && other_value(s2, existing[j], name))
    &&& used_tile(s2, v_off + 0x1000)
    &&& v_off != nk_off
    &&& v_off != nk.value_list_offset
    &&& value_node_at(s2, v_off) == Ok::<crate::cell::ValueNodeView, RegError>(vk)
    &&& (!vk.inline && vk.data_size != 0 ==> used_tile(s2, vk.data_offset + 0x1000)
        && vk.data_offset != nk_off && vk.data_offset != nk.value_list_offset)
    &&& keeps_used(s2, s3)
    &&& crate::tiling::bins_tile(s3, 0x1000, s3.len() as int)
    &&& s3.len() <= crate::hbin::max_hive_len()
    &&& used_tile(s3, l_off + 0x1000)
    &&& !used_tile(s2, l_off + 0x1000)
    &&& (crate::hbin::payload_range(s3, l_off) matches Ok((x, y)) && y - x >= 4 * (existing.len()
        + 1) && s3.subrange(x, x + 4 * (existing.len() + 1)) == crate::cell::le32_list(
        existing.push(v_off),
    ))
    &&& s4.len() == s3.len()
    &&& (forall|i: int|
        0 <= i < s3.len() && !(nk.value_list_offset != 0 && nk.value_list_offset != FREE
            && nk.value_list_offset + 0x1000 <= i < nk.value_list_offset + 0x1004)
            ==> #[trigger] s4[i] == s3[i])
    &&& existing.len() + 1 < 0x1_0000_0000
    &&& s6 == crate::bytes::put_u32(
        crate::bytes::put_u32(s4, nk_off + 0x1004 + 40, l_off),
        nk_off + 0x1004 + 36,
        (existing.len() + 1) as u32,
    )
}

/// The regions written after the new list in the append path, and the
/// cells around them.
#[verifier::spinoff_prover]
proof fn lemma_append_regions(
    s2: Seq<u8>,
    s3: Seq<u8>,
    s4: Seq<u8>,
    s6: Seq<u8>,
    nk_off: u32,
    nk: KeyNodeView,
    existing: Seq<u32>,
    v_off: u32,
    vk: crate::cell::ValueNodeView,
    l_off: u32,
    name: Seq<char>,
) -> (r: (int, int, int))
    requires
        append_facts(s2, s3, s4, s6, nk_off, nk, existing, v_off, vk, l_off, name),
    ensures
        ({
            let (w1, a1, b1) = r;
            let c_nk = nk_off + 0x1000;
            let a = nk_off + 0x1004;
            &&& is_tile(s3, w1)
            &&& w1 <= a1 <= b1 <= w1 + crate::tiling::size_at(s3, w1)
            &&& is_tile(s3, c_nk)
            &&& c_nk <= a + 36 <= a + 44 <= c_nk + crate::tiling::size_at(s3, c_nk)
            &&& s6.len() == s3.len()
            &&& forall|i: int| 0 <= i < s3.len() && !(a1 <= i < b1) && !(a + 36 <= i < a + 44) ==> #[trigger] s6[i] == s3[i]
            &&& nk.value_list_offset != 0 && nk.value_list_offset != FREE ==> w1 == nk.value_list_offset + 0x1000
            &&& !(nk.value_list_offset != 0 && nk.value_list_offset != FREE) ==> w1 == c_nk
            &&& keeps_used(s2, s3)
            &&& crate::tiling::bins_tile(s3, 0x1000, s3.len() as int)
        }),
{
    reveal(append_facts);
    let ol = nk.value_list_offset;
    let has_ol = ol != 0 && ol != FREE;
    let c_nk = nk_off + 0x1000;
    let count = (existing.len() + 1) as u32;
    lemma_key_node_room(s2, nk_off);
    lemma_used_kept(s2, s3, nk_off);
    crate::tiling::lemma_tile_bounds(s3, c_nk);
    lemma_append_writes(s3, s4, s6, ol, nk_off, l_off, count);
    if has_ol {
        lemma_used_kept(s2, s3, ol);
        crate::tiling::lemma_tile_bounds(s3, ol + 0x1000);
        (ol + 0x1000, ol + 0x1000, ol + 0x1004)
    } else {
        (c_nk, c_nk, c_nk)
    }
}

/// The new value list after the append path reads as the old entries then
/// the new value node.
#[verifier::spinoff_prover]
proof fn lemma_append_list(
    s2: Seq<u8>,
    s3: Seq<u8>,
    s4: Seq<u8>,
    s6: Seq<u8>,
    nk_off: u32,
    nk: KeyNodeView,
    existing: Seq<u32>,
    v_off: u32,
    vk: crate::cell::ValueNodeView,
    l_off: u32,
    name: Seq<char>,
)
    requires
        append_facts(s2, s3, s4, s6, nk_off, nk, existing, v_off, vk, l_off, name),
    ensures
        value_list(s6, l_off, (existing.len() + 1) as u32) == Ok::<Seq<u32>, RegError>(
            existing.push(v_off),
        ),
{
    reveal(append_facts);
    let n = existing.len() as int;
    let (w1, a1, b1) = lemma_append_regions(s2, s3, s4, s6, nk_off, nk, existing, v_off, vk, l_off, name);
    let a = nk_off + 0x1004;
    let c_nk = nk_off + 0x1000;
    lemma_used_kept(s2, s3, nk_off);
    if nk.value_list_offset != 0 && nk.value_list_offset != FREE {
        lemma_used_kept(s2, s3, nk.value_list_offset);
    }
    lemma_two_writes_keep(s3, s6, w1, a1, b1, c_nk, a + 36, a + 44, l_off);
    lemma_cell_kept_reads(s3, s6, l_off);
    let (x, y) = crate::hbin::payload_range(s3, l_off).unwrap();
    let p = s3.subrange(x, y);
    assert(p.subrange(0, 4 * (n + 1)) =~= s3.subrange(x, x + 4 * (n + 1)));
    crate::cell::lemma_le32_list_read(p, existing.push(v_off));
    crate::tiling::lemma_tile_bounds(s3, l_off + 0x1000);
}

/// A cell allocated before the append path, apart from the key node and the
/// old list, reads the same after it.
#[verifier::spinoff_prover]
proof fn lemma_append_kept(
    s2: Seq<u8>,
    s3: Seq<u8>,
    s4: Seq<u8>,
    s6: Seq<u8>,
    nk_off: u32,
    nk: KeyNodeView,
    existing: Seq<u32>,
    v_off: u32,
    vk: crate::cell::ValueNodeView,
    l_off: u32,
    name: Seq<char>,
    off: u32,
)
    requires
        append_facts(s2, s3, s4, s6, nk_off, nk, existing, v_off, vk, l_off, name),
        used_tile(s2, off + 0x1000),
        off != nk_off,
        off != nk.value_list_offset,
    ensures
        crate::cell::cell_payload_spec(s6, off) == crate::cell::cell_payload_spec(s2, off),
        value_node_at(s6, off) == value_node_at(s2, off),
        cell_kept(s2, s6, off),
{
    let (w1, a1, b1) = lemma_append_regions(s2, s3, s4, s6, nk_off, nk, existing, v_off, vk, l_off, name);
    let a = nk_off + 0x1004;
    let c_nk = nk_off + 0x1000;
    lemma_kept_through(s2, s3, s6, w1, a1, b1, c_nk, a + 36, a + 44, off);
}

/// The facts about the value nodes that the append path keeps.
#[verifier::spinoff_prover]
proof fn lemma_append_export(
    s2: Seq<u8>,
    s3: Seq<u8>,
    s4: Seq<u8>,
    s6: Seq<u8>,
    nk_off: u32,
    nk: KeyNodeView,
    existing: Seq<u32>,
    v_off: u32,
    vk: crate::cell::ValueNodeView,
    l_off: u32,
    name: Seq<char>,
)
    requires
        append_facts(s2, s3, s4, s6, nk_off, nk, existing, v_off, vk, l_off, name),
    ensures
        forall|j: int|
            0 <= j < existing.len() ==> #[trigger] used_tile(s2, existing[j] + 0x1000)
                && existing[j] != nk_off && existing[j] != nk.value_list_offset && other_value(
                s2,
                existing[j],
                name,
            ),
        used_tile(s2, v_off + 0x1000),
        v_off != nk_off,
        v_off != nk.value_list_offset,
        value_node_at(s2, v_off) == Ok::<crate::cell::ValueNodeView, RegError>(vk),
        !vk.inline && vk.data_size != 0 ==> used_tile(s2, vk.data_offset + 0x1000) && vk.data_offset
            != nk_off && vk.data_offset != nk.value_list_offset,
        used_tile(s2, nk_off + 0x1000),
        key_node_at(s2, nk_off) == Ok::<KeyNodeView, RegError>(nk),
        nk.value_list_offset != 0 && nk.value_list_offset != FREE ==> used_tile(
            s2,
            nk.value_list_offset + 0x1000,
        ) && nk.value_list_offset != nk_off,
        keeps_used(s2, s3),
        crate::tiling::bins_tile(s3, 0x1000, s3.len() as int),
        s4.len() == s3.len(),
        forall|i: int|
            0 <= i < s3.len() && !(nk.value_list_offset != 0 && nk.value_list_offset != FREE
                && nk.value_list_offset + 0x1000 <= i < nk.value_list_offset + 0x1004)
                ==> #[trigger] s4[i] == s3[i],
        existing.len() + 1 < 0x1_0000_0000,
        s6 == crate::bytes::put_u32(
            crate::bytes::put_u32(s4, nk_off + 0x1004 + 40, l_off),
            nk_off + 0x1004 + 36,
            (existing.len() + 1) as u32,
        ),
{
    reveal(append_facts);
}

/// The value nodes after the append path read as they did.
proof fn lemma_append_nodes(
    s2: Seq<u8>,
    s3: Seq<u8>,
    s4: Seq<u8>,
    s6: Seq<u8>,
    nk_off: u32,
    nk: KeyNodeView,
    existing: Seq<u32>,
    v_off: u32,
    vk: crate::cell::ValueNodeView,
    l_off: u32,
    name: Seq<char>,
)
    requires
        append_facts(s2, s3, s4, s6, nk_off, nk, existing, v_off, vk, l_off, name),
        vk.data_size as int <= crate::cell::BIG_DATA_THRESHOLD,
    ensures
        forall|j: int| 0 <= j < existing.len() ==> #[trigger] other_value(s6, existing[j], name),
        value_node_at(s6, v_off) == Ok::<crate::cell::ValueNodeView, RegError>(vk),
        value_of(s6, vk) == value_of(s2, vk),
{
    lemma_append_export(s2, s3, s4, s6, nk_off, nk, existing, v_off, vk, l_off, name);
    assert forall|j: int| 0 <= j < existing.len() implies #[trigger] other_value(s6, existing[j], name) by {
        assert(used_tile(s2, existing[j] + 0x1000));
        assert(existing[j] != nk_off);
        assert(existing[j] != nk.value_list_offset);
        assert(other_value(s2, existing[j], name));
        lemma_append_kept(s2, s3, s4, s6, nk_off, nk, existing, v_off, vk, l_off, name, existing[j]);
        reveal(other_value);
    }
    lemma_append_kept(s2, s3, s4, s6, nk_off, nk, existing, v_off, vk, l_off, name, v_off);
    if !vk.inline && vk.data_size != 0 {
        lemma_append_kept(s2, s3, s4, s6, nk_off, nk, existing, v_off, vk, l_off, name, vk.data_offset);
    }
    lemma_value_of_same(s2, s6, vk);
}

/// What the append path of a value write leaves: the key node's new value
/// list holds the old entries, then the new value node, which reads back as
/// the value.
#[verifier::spinoff_prover]
proof fn lemma_append_law(
    s2: Seq<u8>,
    s3: Seq<u8>,
    s4: Seq<u8>,
    s6: Seq<u8>,
    nk_off: u32,
    nk: KeyNodeView,
    existing: Seq<u32>,
    v_off: u32,
    vk: crate::cell::ValueNodeView,
    l_off: u32,
    name: Seq<char>,
    m: ValueModel,
)
    requires
        append_facts(s2, s3, s4, s6, nk_off, nk, existing, v_off, vk, l_off, name),
        name_order(vk.name, name) == 0,
        vk.data_size as int <= crate::cell::BIG_DATA_THRESHOLD,
        value_of(s2, vk) == Some(Ok::<ValueModel, RegError>(m)),
    ensures
        value_under(s6, nk_off, name) == Some(Lookup::Found(m)),
{
    let count = (existing.len() + 1) as u32;
    lemma_append_export(s2, s3, s4, s6, nk_off, nk, existing, v_off, vk, l_off, name);
    let _ = lemma_append_regions(s2, s3, s4, s6, nk_off, nk, existing, v_off, vk, l_off, name);
    if nk.value_list_offset != 0 && nk.value_list_offset != FREE {
        lemma_used_kept(s2, s3, nk.value_list_offset);
    }
    lemma_append_key(s2, s3, s4, s6, nk_off, nk, l_off, count);
    lemma_append_list(s2, s3, s4, s6, nk_off, nk, existing, v_off, vk, l_off, name);
    lemma_append_nodes(s2, s3, s4, s6, nk_off, nk, existing, v_off, vk, l_off, name);
    let list = existing.push(v_off);
    assert forall|k: int| 0 <= k < existing.len() implies #[trigger] other_value(s6, list[k], name) by {
        assert(list[k] == existing[k]);
        assert(other_value(s6, existing[k], name));
    }
    lemma_find_first(s6, list, existing.len() as int, name, m);
}

} // verus!

verus! {

/// The state facts the replace path of a value write establishes: entry
/// `i` of the key node's value list, the first one of that name, is
/// replaced by the new value node, then the old node and its data are
/// freed.
#[verifier::opaque]
pub open spec fn replace_facts(
    s2: Seq<u8>,
    s3: Seq<u8>,
    s4: Seq<u8>,
    s5: Seq<u8>,
    nk_off: u32,
    nk: KeyNodeView,
    existing: Seq<u32>,
    i: int,
    ovk: crate::cell::ValueNodeView,
    v_off: u32,
    vk: crate::cell::ValueNodeView,
    name: Seq<char>,
) -> bool {
    let ol = nk.value_list_offset;
    let e = existing[i];
    let od = ovk.data_offset;
    &&& crate::tiling::bins_tile(s2, 0x1000, s2.len() as int)
    &&& used_tile(s2, nk_off + 0x1000)
    &&& key_node_at(s2, nk_off) == Ok::<KeyNodeView, RegError>(nk)
    &&& ol != 0 && ol != FREE
    &&& used_tile(s2, ol + 0x1000)
    &&& ol != nk_off
    &&& value_list(s2, ol, nk.value_count) == Ok::<Seq<u32>, RegError>(existing)
    &&& 0 <= i < existing.len()
    &&& (forall|k: int|
        0 <= k < i ==> #[trigger] used_tile(s2, existing[k] + 0x1000) && existing[k] != nk_off
            && existing[k] != ol && existing[k] != e && (data_in_cell(ovk) ==> existing[k] != od)
            && other_value(s2, existing[k], name))
    &&& used_tile(s2, e + 0x1000)
    &&& e != nk_off
    &&& e != ol
    &&& value_node_at(s2, e) == Ok::<crate::cell::ValueNodeView, RegError>(ovk)
    &&& (data_in_cell(ovk) ==> used_tile(s2, od + 0x1000) && od != nk_off && od != ol && od != e)
    &&& used_tile(s2, v_off + 0x1000)
    &&& v_off != nk_off
    &&& v_off != ol
    &&& v_off != e
    &&& (data_in_cell(ovk) ==> v_off != od)
    &&& value_node_at(s2, v_off) == Ok::<crate::cell::ValueNodeView, RegError>(vk)
    &&& (!vk.inline && vk.data_size != 0 ==> used_tile(s2, vk.data_offset + 0x1000)
        && vk.data_offset != ol && vk.data_offset != e && (data_in_cell(ovk) ==> vk.data_offset
        != od))
    &&& (crate::hbin::payload_range(s2, ol) matches Ok((a, b)) && 4 * i + 4 <= b - a && s3
        == crate::bytes::put_u32(s2, a + 4 * i, v_off))
    &&& s4.len() == s3.len()
    &&& (forall|x: int|
        0 <= x < s3.len() && !(data_in_cell(ovk) && od + 0x1000 <= x < od + 0x1004)
            ==> #[trigger] s4[x] == s3[x])
    &&& s5.len() == s4.len()
    &&& (forall|x: int| 0 <= x < s4.len() && !(e + 0x1000 <= x < e + 0x1004) ==> #[trigger] s5[x] == s4[x])
}

/// The facts of the replace path, one by one.
#[verifier::spinoff_prover]
proof fn lemma_replace_export(
    s2: Seq<u8>,
    s3: Seq<u8>,
    s4: Seq<u8>,
    s5: Seq<u8>,
    nk_off: u32,
    nk: KeyNodeView,
    existing: Seq<u32>,
    i: int,
    ovk: crate::cell::ValueNodeView,
    v_off: u32,
    vk: crate::cell::ValueNodeView,
    name: Seq<char>,
)
    requires
        replace_facts(s2, s3, s4, s5, nk_off, nk, existing, i, ovk, v_off, vk, name),
    ensures
        ({
            let ol = nk.value_list_offset;
            let e = existing[i];
            let od = ovk.data_offset;
    &&& crate::tiling::bins_tile(s2, 0x1000, s2.len() as int)
    &&& used_tile(s2, nk_off + 0x1000)
    &&& key_node_at(s2, nk_off) == Ok::<KeyNodeView, RegError>(nk)
    &&& ol != 0 && ol != FREE
    &&& used_tile(s2, ol + 0x1000)
    &&& ol != nk_off
    &&& value_list(s2, ol, nk.value_count) == Ok::<Seq<u32>, RegError>(existing)
    &&& 0 <= i < existing.len()
    &&& (forall|k: int|
        0 <= k < i ==> #[trigger] used_tile(s2, existing[k] + 0x1000) && existing[k] != nk_off
            && existing[k] != ol && existing[k] != e && (data_in_cell(ovk) ==> existing[k] != od)
            && other_value(s2, existing[k], name))
    &&& used_tile(s2, e + 0x1000)
    &&& e != nk_off
    &&& e != ol
    &&& value_node_at(s2, e) == Ok::<crate::cell::ValueNodeView, RegError>(ovk)
    &&& (data_in_cell(ovk) ==> used_tile(s2, od + 0x1000) && od != nk_off && od != ol && od != e)
    &&& used_tile(s2, v_off + 0x1000)
    &&& v_off != nk_off
    &&& v_off != ol
    &&& v_off != e
    &&& (data_in_cell(ovk) ==> v_off != od)
    &&& value_node_at(s2, v_off) == Ok::<crate::cell::ValueNodeView, RegError>(vk)
    &&& (!vk.inline && vk.data_size != 0 ==> used_tile(s2, vk.data_offset + 0x1000)
        && vk.data_offset != ol && vk.data_offset != e && (data_in_cell(ovk) ==> vk.data_offset
        != od))
    &&& (crate::hbin::payload_range(s2, ol) matches Ok((a, b)) && 4 * i + 4 <= b - a && s3
        == crate::bytes::put_u32(s2, a + 4 * i, v_off))
    &&& s4.len() == s3.len()
    &&& (forall|x: int|
        0 <= x < s3.len() && !(data_in_cell(ovk) && od + 0x1000 <= x < od + 0x1004)
            ==> #[trigger] s4[x] == s3[x])
    &&& s5.len() == s4.len()
    &&& (forall|x: int| 0 <= x < s4.len() && !(e + 0x1000 <= x < e + 0x1004) ==> #[trigger] s5[x] == s4[x])
        }),
{
    reveal(replace_facts);
}

/// The tiling after the list entry is written, and the regions written
/// after it.
#[verifier::spinoff_prover]
proof fn lemma_replace_regions(
    s2: Seq<u8>,
    s3: Seq<u8>,
    s4: Seq<u8>,
    s5: Seq<u8>,
    nk_off: u32,
    nk: KeyNodeView,
    existing: Seq<u32>,
    i: int,
    ovk: crate::cell::ValueNodeView,
    v_off: u32,
    vk: crate::cell::ValueNodeView,
    name: Seq<char>,
) -> (r: (int, int, int))
    requires
        replace_facts(s2, s3, s4, s5, nk_off, nk, existing, i, ovk, v_off, vk, name),
    ensures
        ({
            let (w1, a1, b1) = r;
            let e = existing[i] + 0x1000;
            &&& crate::tiling::bins_tile(s3, 0x1000, s3.len() as int)
            &&& s3.len() == s2.len()
            &&& forall|f: int| #[trigger] is_tile(s3, f) == is_tile(s2, f)
            &&& forall|f: int| is_tile(s2, f) ==> #[trigger] crate::tiling::size_at(s3, f) == crate::tiling::size_at(s2, f)
            &&& is_tile(s3, w1)
            &&& w1 <= a1 <= b1 <= w1 + crate::tiling::size_at(s3, w1)
            &&& is_tile(s3, e)
            &&& e + 4 <= e + crate::tiling::size_at(s3, e)
            &&& s5.len() == s3.len()
            &&& forall|x: int| 0 <= x < s3.len() && !(a1 <= x < b1) && !(e <= x < e + 4) ==> #[trigger] s5[x] == s3[x]
            &&& data_in_cell(ovk) ==> w1 == ovk.data_offset + 0x1000
            &&& !data_in_cell(ovk) ==> w1 == e
        }),
{
    reveal(replace_facts);
    let ol = nk.value_list_offset;
    let (a, b) = crate::hbin::payload_range(s2, ol).unwrap();
    crate::tiling::lemma_tile_bounds(s2, ol + 0x1000);
    crate::bytes::lemma_put_u32(s2, a + 4 * i, v_off);
    assert forall|x: int| 0 <= x < s2.len() && !(a + 4 * i <= x < a + 4 * i + 4) implies #[trigger] s3[x] == s2[x] by {}
    crate::tiling::lemma_write_in_tile(s2, s3, ol + 0x1000, a + 4 * i, a + 4 * i + 4);
    let e = existing[i] + 0x1000;
    crate::tiling::lemma_tile_bounds(s2, e);
    if data_in_cell(ovk) {
        let od = ovk.data_offset + 0x1000;
        crate::tiling::lemma_tile_bounds(s2, od);
        (od, od, od + 4)
    } else {
        (e, e, e)
    }
}

/// A cell allocated before the replace path, apart from the value list, the
/// replaced node and its data, reads the same after it.
#[verifier::spinoff_prover]
proof fn lemma_replace_kept(
    s2: Seq<u8>,
    s3: Seq<u8>,
    s4: Seq<u8>,
    s5: Seq<u8>,
    nk_off: u32,
    nk: KeyNodeView,
    existing: Seq<u32>,
    i: int,
    ovk: crate::cell::ValueNodeView,
    v_off: u32,
    vk: crate::cell::ValueNodeView,
    name: Seq<char>,
    off: u32,
)
    requires
        replace_facts(s2, s3, s4, s5, nk_off, nk, existing, i, ovk, v_off, vk, name),
        used_tile(s2, off + 0x1000),
        off != nk.value_list_offset,
        off != existing[i],
        data_in_cell(ovk) ==> off != ovk.data_offset,
    ensures
        crate::cell::cell_payload_spec(s5, off) == crate::cell::cell_payload_spec(s2, off),
        key_node_at(s5, off) == key_node_at(s2, off),
        value_node_at(s5, off) == value_node_at(s2, off),
        cell_kept(s2, s5, off),
{
    lemma_replace_export(s2, s3, s4, s5, nk_off, nk, existing, i, ovk, v_off, vk, name);
    let ol = nk.value_list_offset;
    let (a, b) = crate::hbin::payload_range(s2, ol).unwrap();
    let (w1, a1, b1) = lemma_replace_regions(s2, s3, s4, s5, nk_off, nk, existing, i, ovk, v_off, vk, name);
    crate::tiling::lemma_tile_bounds(s2, ol + 0x1000);
    crate::bytes::lemma_put_u32(s2, a + 4 * i, v_off);
    lemma_write_keeps(s2, s3, ol + 0x1000, a + 4 * i, a + 4 * i + 4, off);
    lemma_cell_kept_reads(s2, s3, off);
    let e = existing[i] + 0x1000;
    lemma_two_writes_keep(s3, s5, w1, a1, b1, e, e, e + 4, off);
    lemma_cell_kept_reads(s3, s5, off);
    assert(crate::tiling::size_at(s3, off + 0x1000) == crate::tiling::size_at(s2, off + 0x1000));
}

/// The payload of a list cell after one of its entries is written.
#[verifier::spinoff_prover]
proof fn lemma_list_entry_written(s2: Seq<u8>, ol: u32, i: int, v: u32)
    requires
        crate::hbin::payload_range(s2, ol) matches Ok((a, b)) && 0 <= i && 4 * i + 4 <= b - a,
    ensures
        ({
            let (a, b) = crate::hbin::payload_range(s2, ol).unwrap();
            crate::cell::cell_payload_spec(crate::bytes::put_u32(s2, a + 4 * i, v), ol) == Ok::<
                Seq<u8>,
                RegError,
            >(crate::bytes::put_u32(s2.subrange(a, b), 4 * i, v))
        }),
{
    let (a, b) = crate::hbin::payload_range(s2, ol).unwrap();
    let s3 = crate::bytes::put_u32(s2, a + 4 * i, v);
    let c = ol + 0x1000;
    crate::bytes::lemma_put_u32(s2, a + 4 * i, v);
    assert(s3[c] == s2[c] && s3[c + 1] == s2[c + 1] && s3[c + 2] == s2[c + 2] && s3[c + 3] == s2[c + 3]);
    lemma_put_in_slice(s2, a, b, 4 * i, v);
}

/// The value list after the replace path holds the new value node at entry
/// `i`.
#[verifier::spinoff_prover]
proof fn lemma_replace_list(
    s2: Seq<u8>,
    s3: Seq<u8>,
    s4: Seq<u8>,
    s5: Seq<u8>,
    nk_off: u32,
    nk: KeyNodeView,
    existing: Seq<u32>,
    i: int,
    ovk: crate::cell::ValueNodeView,
    v_off: u32,
    vk: crate::cell::ValueNodeView,
    name: Seq<char>,
)
    requires
        replace_facts(s2, s3, s4, s5, nk_off, nk, existing, i, ovk, v_off, vk, name),
    ensures
        value_list(s5, nk.value_list_offset, nk.value_count) == Ok::<Seq<u32>, RegError>(
            existing.update(i, v_off),
        ),
{
    lemma_replace_export(s2, s3, s4, s5, nk_off, nk, existing, i, ovk, v_off, vk, name);
    let ol = nk.value_list_offset;
    let (a, b) = crate::hbin::payload_range(s2, ol).unwrap();
    let (w1, a1, b1) = lemma_replace_regions(s2, s3, s4, s5, nk_off, nk, existing, i, ovk, v_off, vk, name);
    lemma_list_entry_written(s2, ol, i, v_off);
    let e = existing[i] + 0x1000;
    lemma_two_writes_keep(s3, s5, w1, a1, b1, e, e, e + 4, ol);
    lemma_cell_kept_reads(s3, s5, ol);
    let p = s2.subrange(a, b);
    crate::cell::lemma_offsets_fit(p, nk.value_count as nat);
    assert(crate::cell::offsets_in(p, 0, 4, nk.value_count as nat) == existing);
    crate::cell::lemma_offsets_put(p, nk.value_count as nat, i, v_off);
}

/// What the replace path of a value write leaves: the value of that name
/// reads back as the value written.
#[verifier::spinoff_prover]
proof fn lemma_replace_law(
    s2: Seq<u8>,
    s3: Seq<u8>,
    s4: Seq<u8>,
    s5: Seq<u8>,
    nk_off: u32,
    nk: KeyNodeView,
    existing: Seq<u32>,
    i: int,
    ovk: crate::cell::ValueNodeView,
    v_off: u32,
    vk: crate::cell::ValueNodeView,
    name: Seq<char>,
    m: ValueModel,
)
    requires
        replace_facts(s2, s3, s4, s5, nk_off, nk, existing, i, ovk, v_off, vk, name),
        name_order(vk.name, name) == 0,
        vk.data_size as int <= crate::cell::BIG_DATA_THRESHOLD,
        value_of(s2, vk) == Some(Ok::<ValueModel, RegError>(m)),
    ensures
        value_under(s5, nk_off, name) == Some(Lookup::Found(m)),
{
    lemma_replace_export(s2, s3, s4, s5, nk_off, nk, existing, i, ovk, v_off, vk, name);
    let ol = nk.value_list_offset;
    let list = existing.update(i, v_off);
    lemma_replace_kept(s2, s3, s4, s5, nk_off, nk, existing, i, ovk, v_off, vk, name, nk_off);
    lemma_replace_list(s2, s3, s4, s5, nk_off, nk, existing, i, ovk, v_off, vk, name);
    assert forall|k: int| 0 <= k < i implies #[trigger] other_value(s5, list[k], name) by {
        let x = existing[k];
        assert(list[k] == x);
        assert(used_tile(s2, x + 0x1000) && x != ol && x != existing[i] && (data_in_cell(ovk) ==> x != ovk.data_offset) && other_value(s2, x, name));
        lemma_replace_kept(s2, s3, s4, s5, nk_off, nk, existing, i, ovk, v_off, vk, name, x);
        reveal(other_value);
    }
    lemma_replace_kept(s2, s3, s4, s5, nk_off, nk, existing, i, ovk, v_off, vk, name, v_off);
    if !vk.inline && vk.data_size != 0 {
        lemma_replace_kept(s2, s3, s4, s5, nk_off, nk, existing, i, ovk, v_off, vk, name, vk.data_offset);
    }
    lemma_value_of_same(s2, s5, vk);
    lemma_find_first(s5, list, i, name, m);
}

} // verus!

verus! {

/// The value node `offs[j]` and its data cell are allocated cells apart
/// from the key node at `nk_off`, its value list `ol` and the other value
/// nodes.
pub open spec fn value_node_apart(d: Seq<u8>, offs: Seq<u32>, j: int, nk_off: u32, ol: u32) -> bool {
    let o = offs[j];
    &&& used_tile(d, o + 0x1000)
    &&& o != nk_off
    &&& o != ol
    &&& (value_node_at(d, o) matches Ok(vk) ==> (data_in_cell(vk) ==> {
        &&& used_tile(d, vk.data_offset + 0x1000)
        &&& vk.data_offset != nk_off
        &&& vk.data_offset != ol
        &&& forall|k: int| 0 <= k < offs.len() ==> #[trigger] offs[k] != vk.data_offset
    }))
}

/// The cells that writing a value under the key node at `nk_off` touches
/// are allocated cells of a tiled hive, apart from one another: the node,
/// its value list, its value nodes and their data cells.
#[verifier::opaque]
pub open spec fn value_cells_apart(h: HiveView, nk_off: u32) -> bool {
    let d = h.data;
    &&& tiled(d, h.header.hive_bins_size)
    &&& used_tile(d, nk_off + 0x1000)
    &&& (key_node_at(d, nk_off) matches Ok(nk) ==> {
        let ol = nk.value_list_offset;
        &&& (ol != 0 && ol != FREE ==> used_tile(d, ol + 0x1000) && ol != nk_off)
        &&& (value_list(d, ol, nk.value_count) matches Ok(offs) ==> forall|j: int|
            0 <= j < offs.len() ==> #[trigger] value_node_apart(d, offs, j, nk_off, ol))
        &&& (value_list(d, ol, nk.value_count) matches Ok(offs) ==> entries_apart(d, offs))
    })
}

/// The value nodes `offs` are distinct cells, and so are the data cells of
/// those whose data is in a cell.
pub open spec fn entries_apart(d: Seq<u8>, offs: Seq<u32>) -> bool {
    forall|j: int, k: int|
        0 <= j < offs.len() && 0 <= k < offs.len() && j != k ==> #[trigger] offs[j] != #[trigger] offs[k]
            && data_apart(d, offs[j], offs[k])
}

/// The value nodes at `a` and `b` do not share a data cell.
pub open spec fn data_apart(d: Seq<u8>, a: u32, b: u32) -> bool {
    value_node_at(d, a) is Ok && data_in_cell(value_node_at(d, a)->Ok_0) && value_node_at(d, b) is Ok
        && data_in_cell(value_node_at(d, b)->Ok_0) ==> value_node_at(d, a)->Ok_0.data_offset
        != value_node_at(d, b)->Ok_0.data_offset
}

/// What [`value_cells_apart`] says of the key node at `nk_off` and of its
/// value node `j`.
proof fn lemma_apart_node(h: HiveView, nk_off: u32, nk: KeyNodeView, offs: Seq<u32>, j: int)
    requires
        value_cells_apart(h, nk_off),
        key_node_at(h.data, nk_off) == Ok::<KeyNodeView, RegError>(nk),
        value_list(h.data, nk.value_list_offset, nk.value_count) == Ok::<Seq<u32>, RegError>(offs),
        0 <= j < offs.len(),
    ensures
        value_node_apart(h.data, offs, j, nk_off, nk.value_list_offset),
{
    reveal(value_cells_apart);
    let k2 = key_node_at(h.data, nk_off)->Ok_0;
    assert(k2 == nk);
    let o2 = value_list(h.data, k2.value_list_offset, k2.value_count)->Ok_0;
    assert(o2 == offs);
    assert(value_node_apart(h.data, o2, j, nk_off, k2.value_list_offset));
}

/// What [`value_cells_apart`] says of the key node at `nk_off`.
proof fn lemma_apart_key(h: HiveView, nk_off: u32, nk: KeyNodeView)
    requires
        value_cells_apart(h, nk_off),
        key_node_at(h.data, nk_off) == Ok::<KeyNodeView, RegError>(nk),
    ensures
        tiled(h.data, h.header.hive_bins_size),
        used_tile(h.data, nk_off + 0x1000),
        nk.value_list_offset != 0 && nk.value_list_offset != FREE ==> used_tile(
            h.data,
            nk.value_list_offset + 0x1000,
        ) && nk.value_list_offset != nk_off,
{
    reveal(value_cells_apart);
}

/// The key node, its value list and value nodes read the same after
/// allocations.
#[verifier::spinoff_prover]
proof fn lemma_apart_kept(h: HiveView, d2: Seq<u8>, nk_off: u32)
    requires
        value_cells_apart(h, nk_off),
        keeps_used(h.data, d2),
    ensures
        key_node_at(d2, nk_off) == key_node_at(h.data, nk_off),
        key_node_at(h.data, nk_off) matches Ok(nk) ==> {
            &&& value_list(d2, nk.value_list_offset, nk.value_count) == value_list(
                h.data,
                nk.value_list_offset,
                nk.value_count,
            )
            &&& (value_list(h.data, nk.value_list_offset, nk.value_count) matches Ok(offs)
                ==> forall|j: int|
                0 <= j < offs.len() ==> #[trigger] value_node_at(d2, offs[j]) == value_node_at(
                    h.data,
                    offs[j],
                ))
        },
{
    reveal(value_cells_apart);
    let d = h.data;
    lemma_used_kept(d, d2, nk_off);
    lemma_cell_kept_reads(d, d2, nk_off);
    if let Ok(nk) = key_node_at(d, nk_off) {
        let ol = nk.value_list_offset;
        if ol != 0 && ol != FREE {
            lemma_used_kept(d, d2, ol);
            lemma_cell_kept_reads(d, d2, ol);
        }
        if let Ok(offs) = value_list(d, ol, nk.value_count) {
            assert forall|j: int| 0 <= j < offs.len() implies #[trigger] value_node_at(d2, offs[j])
                == value_node_at(d, offs[j]) by {
                assert(value_node_apart(d, offs, j, nk_off, ol));
                lemma_used_kept(d, d2, offs[j]);
                lemma_cell_kept_reads(d, d2, offs[j]);
            }
        }
    }
}

/// A cell not allocated in `d` is none of the cells allocated in it.
proof fn lemma_not_used_apart(d: Seq<u8>, fresh: u32, off: u32)
    requires
        !used_tile(d, fresh + 0x1000),
        used_tile(d, off + 0x1000),
    ensures
        fresh != off,
{
}

} // verus!

verus! {

/// The value node written for a value reads back as written.
proof fn lemma_new_value_node(
    d: Seq<u8>,
    v_off: u32,
    name: Seq<char>,
    ty: crate::value::RegType,
    size: u32,
    data_field: u32,
    inline: bool,
)
    requires
        crate::hbin::payload_range(d, v_off) matches Ok((x, y)) && y - x
            >= crate::cell::value_node_bytes(name, ty, size, data_field, inline).len() && d.subrange(
            x,
            x + crate::cell::value_node_bytes(name, ty, size, data_field, inline).len(),
        ) == crate::cell::value_node_bytes(name, ty, size, data_field, inline),
        crate::cell::name_to_bytes(name, vstd::utf8::is_ascii_chars(name)).len() <= 0xFFFF,
        size < 0x8000_0000,
        crate::value::type_of_code(crate::value::code_of_type(ty)) == ty,
    ensures
        value_node_at(d, v_off) == Ok::<crate::cell::ValueNodeView, RegError>(
            crate::cell::ValueNodeView { name, ty, data_size: size, data_offset: data_field, inline },
        ),
{
    let (x, y) = crate::hbin::payload_range(d, v_off).unwrap();
    let k = crate::cell::value_node_bytes(name, ty, size, data_field, inline);
    let p = d.subrange(x, y);
    assert(p.subrange(0, k.len() as int) =~= d.subrange(x, x + k.len()));
    crate::cell::lemma_value_node_parse(name, ty, size, data_field, inline, p, v_off);
    crate::cell::lemma_value_node_at(d, v_off);
}

/// The type a value is stored with reads back as itself.
proof fn lemma_stored_type(m: ValueModel)
    ensures
        crate::value::type_of_code(crate::value::code_of_type(crate::value::value_type(m)))
            == crate::value::value_type(m),
{
    match m {
        ValueModel::Other(c, _) => {
            crate::value::lemma_type_code_roundtrip(c);
        },
        _ => {
            crate::value::lemma_type_roundtrip(crate::value::value_type(m));
        },
    }
}

} // verus!

verus! {

/// What a value write knows once the new value node is written, before it
/// reads the key node's value list: the cells it touches are apart, the
/// cells allocated before are kept, and the new node reads back as the
/// value.
#[verifier::opaque]
pub open spec fn write_ready(
    h0: HiveView,
    s2: Seq<u8>,
    nk_off: u32,
    nk: KeyNodeView,
    ex: Seq<u32>,
    v_off: u32,
    vk: crate::cell::ValueNodeView,
    name: Seq<char>,
) -> bool {
    &&& value_cells_apart(h0, nk_off)
    &&& keeps_used(h0.data, s2)
    &&& crate::tiling::bins_tile(s2, 0x1000, s2.len() as int)
    &&& s2.len() <= crate::hbin::max_hive_len()
    &&& key_node_at(h0.data, nk_off) == Ok::<KeyNodeView, RegError>(nk)
    &&& key_node_at(s2, nk_off) == Ok::<KeyNodeView, RegError>(nk)
    &&& value_list(h0.data, nk.value_list_offset, nk.value_count) == Ok::<Seq<u32>, RegError>(ex)
    &&& value_list(s2, nk.value_list_offset, nk.value_count) == Ok::<Seq<u32>, RegError>(ex)
    &&& (forall|j: int| 0 <= j < ex.len() ==> #[trigger] value_node_at(s2, ex[j]) == value_node_at(h0.data, ex[j]))
    &&& used_tile(s2, v_off + 0x1000)
    &&& !used_tile(h0.data, v_off + 0x1000)
    &&& value_node_at(s2, v_off) == Ok::<crate::cell::ValueNodeView, RegError>(vk)
    &&& (!vk.inline && vk.data_size != 0 ==> used_tile(s2, vk.data_offset + 0x1000) && !used_tile(
        h0.data,
        vk.data_offset + 0x1000,
    ) && vk.data_offset != v_off)
    &&& name_order(vk.name, name) == 0
    &&& vk.data_size as int <= crate::cell::BIG_DATA_THRESHOLD
}

/// What [`write_ready`] says, one fact at a time.
proof fn lemma_write_ready(
    h0: HiveView,
    s2: Seq<u8>,
    nk_off: u32,
    nk: KeyNodeView,
    ex: Seq<u32>,
    v_off: u32,
    vk: crate::cell::ValueNodeView,
    name: Seq<char>,
)
    requires
        write_ready(h0, s2, nk_off, nk, ex, v_off, vk, name),
    ensures
        value_cells_apart(h0, nk_off),
        keeps_used(h0.data, s2),
        crate::tiling::bins_tile(s2, 0x1000, s2.len() as int),
        s2.len() <= crate::hbin::max_hive_len(),
        key_node_at(h0.data, nk_off) == Ok::<KeyNodeView, RegError>(nk),
        key_node_at(s2, nk_off) == Ok::<KeyNodeView, RegError>(nk),
        value_list(h0.data, nk.value_list_offset, nk.value_count) == Ok::<Seq<u32>, RegError>(ex),
        value_list(s2, nk.value_list_offset, nk.value_count) == Ok::<Seq<u32>, RegError>(ex),
        forall|j: int| 0 <= j < ex.len() ==> #[trigger] value_node_at(s2, ex[j]) == value_node_at(h0.data, ex[j]),
        used_tile(s2, v_off + 0x1000),
        !used_tile(h0.data, v_off + 0x1000),
        value_node_at(s2, v_off) == Ok::<crate::cell::ValueNodeView, RegError>(vk),
        !vk.inline && vk.data_size != 0 ==> used_tile(s2, vk.data_offset + 0x1000) && !used_tile(
            h0.data,
            vk.data_offset + 0x1000,
        ) && vk.data_offset != v_off,
        name_order(vk.name, name) == 0,
        vk.data_size as int <= crate::cell::BIG_DATA_THRESHOLD,
{
    reveal(write_ready);
}

/// The facts of the append path, from what the value write knows.
#[verifier::spinoff_prover]
proof fn lemma_make_append_facts(
    h0: HiveView,
    s2: Seq<u8>,
    s3: Seq<u8>,
    s4: Seq<u8>,
    s6: Seq<u8>,
    nk_off: u32,
    nk: KeyNodeView,
    existing: Seq<u32>,
    v_off: u32,
    vk: crate::cell::ValueNodeView,
    l_off: u32,
    name: Seq<char>,
)
    requires
        value_cells_apart(h0, nk_off),
        keeps_used(h0.data, s2),
        crate::tiling::bins_tile(s2, 0x1000, s2.len() as int),
        s2.len() <= crate::hbin::max_hive_len(),
        key_node_at(h0.data, nk_off) == Ok::<KeyNodeView, RegError>(nk),
        key_node_at(s2, nk_off) == Ok::<KeyNodeView, RegError>(nk),
        value_list(h0.data, nk.value_list_offset, nk.value_count) == Ok::<Seq<u32>, RegError>(existing),
        forall|j: int| 0 <= j < existing.len() ==> #[trigger] value_node_at(s2, existing[j]) == value_node_at(h0.data, existing[j]),
        forall|k: int| 0 <= k < existing.len() ==> #[trigger] other_value(s2, existing[k], name),
        used_tile(s2, v_off + 0x1000),
        !used_tile(h0.data, v_off + 0x1000),
        value_node_at(s2, v_off) == Ok::<crate::cell::ValueNodeView, RegError>(vk),
        !vk.inline && vk.data_size != 0 ==> used_tile(s2, vk.data_offset + 0x1000) && !used_tile(
            h0.data,
            vk.data_offset + 0x1000,
        ),
        keeps_used(s2, s3),
        crate::tiling::bins_tile(s3, 0x1000, s3.len() as int),
        s3.len() <= crate::hbin::max_hive_len(),
        used_tile(s3, l_off + 0x1000),
        !used_tile(s2, l_off + 0x1000),
        crate::hbin::payload_range(s3, l_off) matches Ok((x, y)) && y - x >= 4 * (existing.len() + 1)
            && s3.subrange(x, x + 4 * (existing.len() + 1)) == crate::cell::le32_list(
            existing.push(v_off),
        ),
        s4.len() == s3.len(),
        forall|i: int|
            0 <= i < s3.len() && !(nk.value_list_offset != 0 && nk.value_list_offset != FREE
                && nk.value_list_offset + 0x1000 <= i < nk.value_list_offset + 0x1004)
                ==> #[trigger] s4[i] == s3[i],
        existing.len() + 1 < 0x1_0000_0000,
        s6 == crate::bytes::put_u32(
            crate::bytes::put_u32(s4, nk_off + 0x1004 + 40, l_off),
            nk_off + 0x1004 + 36,
            (existing.len() + 1) as u32,
        ),
    ensures
        append_facts(s2, s3, s4, s6, nk_off, nk, existing, v_off, vk, l_off, name),
{
    reveal(append_facts);
    let d = h0.data;
    let ol = nk.value_list_offset;
    lemma_apart_key(h0, nk_off, nk);
    lemma_used_kept(d, s2, nk_off);
    if ol != 0 && ol != FREE {
        lemma_used_kept(d, s2, ol);
        lemma_not_used_apart(d, v_off, ol);
    }
    lemma_not_used_apart(d, v_off, nk_off);
    crate::tiling::lemma_tile_bounds(s2, v_off + 0x1000);
    if !vk.inline && vk.data_size != 0 {
        let dd = vk.data_offset;
        lemma_not_used_apart(d, dd, nk_off);
        if ol != 0 && ol != FREE {
            lemma_not_used_apart(d, dd, ol);
        }
        crate::tiling::lemma_tile_bounds(s2, dd + 0x1000);
    }
    assert forall|j: int|
        0 <= j < existing.len() implies #[trigger] used_tile(s2, existing[j] + 0x1000) && existing[j]
        != nk_off && existing[j] != ol && other_value(s2, existing[j], name) by {
        lemma_apart_node(h0, nk_off, nk, existing, j);
        lemma_used_kept(d, s2, existing[j]);
    }
}

/// The facts of the replace path, from what the value write knows.
#[verifier::spinoff_prover]
proof fn lemma_make_replace_facts(
    h0: HiveView,
    s2: Seq<u8>,
    s3: Seq<u8>,
    s4: Seq<u8>,
    s5: Seq<u8>,
    nk_off: u32,
    nk: KeyNodeView,
    existing: Seq<u32>,
    i: int,
    ovk: crate::cell::ValueNodeView,
    v_off: u32,
    vk: crate::cell::ValueNodeView,
    name: Seq<char>,
)
    requires
        value_cells_apart(h0, nk_off),
        keeps_used(h0.data, s2),
        crate::tiling::bins_tile(s2, 0x1000, s2.len() as int),
        key_node_at(h0.data, nk_off) == Ok::<KeyNodeView, RegError>(nk),
        key_node_at(s2, nk_off) == Ok::<KeyNodeView, RegError>(nk),
        value_list(h0.data, nk.value_list_offset, nk.value_count) == Ok::<Seq<u32>, RegError>(existing),
        value_list(s2, nk.value_list_offset, nk.value_count) == Ok::<Seq<u32>, RegError>(existing),
        forall|j: int| 0 <= j < existing.len() ==> #[trigger] value_node_at(s2, existing[j]) == value_node_at(h0.data, existing[j]),
        0 <= i < existing.len(),
        forall|k: int| 0 <= k < i ==> #[trigger] other_value(s2, existing[k], name),
        value_node_at(s2, existing[i]) == Ok::<crate::cell::ValueNodeView, RegError>(ovk),
        name_order(ovk.name, name) == 0,
        used_tile(s2, v_off + 0x1000),
        !used_tile(h0.data, v_off + 0x1000),
        value_node_at(s2, v_off) == Ok::<crate::cell::ValueNodeView, RegError>(vk),
        !vk.inline && vk.data_size != 0 ==> used_tile(s2, vk.data_offset + 0x1000) && !used_tile(
            h0.data,
            vk.data_offset + 0x1000,
        ),
        crate::hbin::payload_range(s2, nk.value_list_offset) matches Ok((a, b)) && 4 * i + 4 <= b - a
            && s3 == crate::bytes::put_u32(s2, a + 4 * i, v_off),
        s4.len() == s3.len(),
        forall|x: int|
            0 <= x < s3.len() && !(data_in_cell(ovk) && ovk.data_offset + 0x1000 <= x
                < ovk.data_offset + 0x1004) ==> #[trigger] s4[x] == s3[x],
        s5.len() == s4.len(),
        forall|x: int|
            0 <= x < s4.len() && !(existing[i] + 0x1000 <= x < existing[i] + 0x1004) ==> #[trigger] s5[x]
                == s4[x],
    ensures
        replace_facts(s2, s3, s4, s5, nk_off, nk, existing, i, ovk, v_off, vk, name),
{
    reveal(replace_facts);
    let d = h0.data;
    let ol = nk.value_list_offset;
    let e = existing[i];
    let od = ovk.data_offset;
    assert(ol != 0 && ol != FREE);
    lemma_apart_key(h0, nk_off, nk);
    lemma_used_kept(d, s2, nk_off);
    lemma_used_kept(d, s2, ol);
    lemma_not_used_apart(d, v_off, ol);
    lemma_not_used_apart(d, v_off, nk_off);
    lemma_apart_node(h0, nk_off, nk, existing, i);
    lemma_used_kept(d, s2, e);
    lemma_not_used_apart(d, v_off, e);
    if data_in_cell(ovk) {
        lemma_used_kept(d, s2, od);
        lemma_not_used_apart(d, v_off, od);
    }
    if !vk.inline && vk.data_size != 0 {
        let dd = vk.data_offset;
        lemma_not_used_apart(d, dd, ol);
        lemma_not_used_apart(d, dd, e);
        if data_in_cell(ovk) {
            lemma_not_used_apart(d, dd, od);
        }
    }
    assert forall|k: int|
        0 <= k < i implies #[trigger] used_tile(s2, existing[k] + 0x1000) && existing[k] != nk_off
        && existing[k] != ol && existing[k] != e && (data_in_cell(ovk) ==> existing[k] != od)
        && other_value(s2, existing[k], name) by {
        reveal(other_value);
        lemma_apart_node(h0, nk_off, nk, existing, k);
        lemma_apart_node(h0, nk_off, nk, existing, i);
        lemma_used_kept(d, s2, existing[k]);
        assert(value_node_at(s2, existing[i]) == value_node_at(d, existing[i]));
        assert(other_value(s2, existing[k], name));
        if existing[k] == e {
            assert(value_node_at(s2, existing[k]) == Ok::<crate::cell::ValueNodeView, RegError>(ovk));
        }
    }
}

} // verus!

verus! {

/// Four writes, each inside its own cell of a tiled hive, keep every other
/// cell.
#[verifier::spinoff_prover]
proof fn lemma_four_writes_keep(d: Seq<u8>, d2: Seq<u8>, ws: Seq<(int, int, int)>, off: u32)
    requires
        crate::tiling::bins_tile(d, 0x1000, d.len() as int),
        ws.len() == 4,
        forall|k: int|
            0 <= k < 4 ==> is_tile(d, #[trigger] ws[k].0) && ws[k].0 <= ws[k].1 <= ws[k].2 <= ws[k].0
                + crate::tiling::size_at(d, ws[k].0) && off + 0x1000 != ws[k].0,
        is_tile(d, off + 0x1000),
        d2.len() == d.len(),
        forall|i: int|
            0 <= i < d.len() && !(ws[0].1 <= i < ws[0].2) && !(ws[1].1 <= i < ws[1].2) && !(ws[2].1 <= i
                < ws[2].2) && !(ws[3].1 <= i < ws[3].2) ==> #[trigger] d2[i] == d[i],
    ensures
        cell_kept(d, d2, off),
{
    let c = off + 0x1000;
    assert forall|k: int| 0 <= k < 4 implies crate::tiling::size_at(d, c) + c <= #[trigger] ws[k].0 || ws[k].0
        + crate::tiling::size_at(d, ws[k].0) <= c by {
        crate::tiling::lemma_tiles_apart_at(d, c, ws[k].0);
    }
    crate::tiling::lemma_tile_bounds(d, c);
    let w0 = ws[0];
    let w1 = ws[1];
    let w2 = ws[2];
    let w3 = ws[3];
    assert(is_tile(d, w0.0) && w0.0 <= w0.1 <= w0.2 <= w0.0 + crate::tiling::size_at(d, w0.0));
    assert(is_tile(d, w1.0) && w1.0 <= w1.1 <= w1.2 <= w1.0 + crate::tiling::size_at(d, w1.0));
    assert(is_tile(d, w2.0) && w2.0 <= w2.1 <= w2.2 <= w2.0 + crate::tiling::size_at(d, w2.0));
    assert(is_tile(d, w3.0) && w3.0 <= w3.1 <= w3.2 <= w3.0 + crate::tiling::size_at(d, w3.0));
    assert(crate::tiling::size_at(d, c) + c <= w0.0 || w0.0 + crate::tiling::size_at(d, w0.0) <= c);
    assert(crate::tiling::size_at(d, c) + c <= w1.0 || w1.0 + crate::tiling::size_at(d, w1.0) <= c);
    assert(crate::tiling::size_at(d, c) + c <= w2.0 || w2.0 + crate::tiling::size_at(d, w2.0) <= c);
    assert(crate::tiling::size_at(d, c) + c <= w3.0 || w3.0 + crate::tiling::size_at(d, w3.0) <= c);
    assert forall|i: int| c <= i < c + crate::tiling::size_at(d, c) implies #[trigger] d2[i] == d[i] by {
        assert(!(w0.1 <= i < w0.2) && !(w1.1 <= i < w1.2) && !(w2.1 <= i < w2.2) && !(w3.1 <= i < w3.2));
    }
}

/// The state facts the value delete establishes.
#[verifier::opaque]
pub open spec fn delete_facts(
    h0: HiveView,
    s3: Seq<u8>,
    s6: Seq<u8>,
    s8: Seq<u8>,
    nk_off: u32,
    nk: KeyNodeView,
    existing: Seq<u32>,
    kept: Seq<u32>,
    idx: Seq<int>,
    iv: int,
    ovk: crate::cell::ValueNodeView,
    l_off: u32,
    name: Seq<char>,
) -> bool {
    let s0 = h0.data;
    let ol = nk.value_list_offset;
    let ov = existing[iv];
    let od = ovk.data_offset;
    &&& value_cells_apart(h0, nk_off)
    &&& key_node_at(s0, nk_off) == Ok::<KeyNodeView, RegError>(nk)
    &&& value_list(s0, ol, nk.value_count) == Ok::<Seq<u32>, RegError>(existing)
    &&& idx.len() == kept.len()
    &&& (forall|k: int|
        0 <= k < kept.len() ==> 0 <= #[trigger] idx[k] < existing.len() && kept[k] == existing[idx[k]]
            && other_value(s0, kept[k], name))
    &&& 0 <= iv < existing.len()
    &&& value_node_at(s0, ov) == Ok::<crate::cell::ValueNodeView, RegError>(ovk)
    &&& name_order(ovk.name, name) == 0
    &&& (kept.len() == 0 ==> s3 == s0 && l_off == FREE)
    &&& (kept.len() > 0 ==> {
        &&& keeps_used(s0, s3)
        &&& crate::tiling::bins_tile(s3, 0x1000, s3.len() as int)
        &&& s3.len() <= crate::hbin::max_hive_len()
        &&& used_tile(s3, l_off + 0x1000)
        &&& !used_tile(s0, l_off + 0x1000)
        &&& (crate::hbin::payload_range(s3, l_off) matches Ok((x, y)) && y - x >= 4 * kept.len()
            && s3.subrange(x, x + 4 * kept.len()) == crate::cell::le32_list(kept))
    })
    &&& s6.len() == s3.len()
    &&& (forall|x: int|
        0 <= x < s3.len() && !(ol != 0 && ol != FREE && ol + 0x1000 <= x < ol + 0x1004) && !(
        data_in_cell(ovk) && od + 0x1000 <= x < od + 0x1004) && !(ov + 0x1000 <= x < ov + 0x1004)
            ==> #[trigger] s6[x] == s3[x])
    &&& kept.len() < 0x1_0000_0000
    &&& s8 == crate::bytes::put_u32(
        crate::bytes::put_u32(s6, nk_off + 0x1004 + 40, l_off),
        nk_off + 0x1004 + 36,
        kept.len() as u32,
    )
}

/// The four regions the delete writes after the new list, as cells of the
/// tiling after it.
#[verifier::spinoff_prover]
#[verifier::rlimit(50)]
proof fn lemma_delete_regions(
    h0: HiveView,
    s3: Seq<u8>,
    s6: Seq<u8>,
    s8: Seq<u8>,
    nk_off: u32,
    nk: KeyNodeView,
    existing: Seq<u32>,
    kept: Seq<u32>,
    idx: Seq<int>,
    iv: int,
    ovk: crate::cell::ValueNodeView,
    l_off: u32,
    name: Seq<char>,
) -> (ws: Seq<(int, int, int)>)
    requires
        delete_facts(h0, s3, s6, s8, nk_off, nk, existing, kept, idx, iv, ovk, l_off, name),
    ensures
        crate::tiling::bins_tile(s3, 0x1000, s3.len() as int),
        keeps_used(h0.data, s3),
        ws.len() == 4,
        forall|k: int|
            0 <= k < 4 ==> is_tile(s3, #[trigger] ws[k].0) && ws[k].0 <= ws[k].1 <= ws[k].2 <= ws[k].0
                + crate::tiling::size_at(s3, ws[k].0),
        s8.len() == s3.len(),
        forall|i: int|
            0 <= i < s3.len() && !(ws[0].1 <= i < ws[0].2) && !(ws[1].1 <= i < ws[1].2) && !(ws[2].1
                <= i < ws[2].2) && !(ws[3].1 <= i < ws[3].2) ==> #[trigger] s8[i] == s3[i],
        ws[3].0 == nk_off + 0x1000,
        ws[2].0 == existing[iv] + 0x1000,
        nk.value_list_offset != 0 && nk.value_list_offset != FREE ==> ws[0].0 == nk.value_list_offset
            + 0x1000,
        !(nk.value_list_offset != 0 && nk.value_list_offset != FREE) ==> ws[0].0 == existing[iv]
            + 0x1000,
        data_in_cell(ovk) ==> ws[1].0 == ovk.data_offset + 0x1000,
        !data_in_cell(ovk) ==> ws[1].0 == existing[iv] + 0x1000,
        s6.len() == s3.len(),
        forall|i: int|
            0 <= i < s3.len() && !(ws[0].1 <= i < ws[0].2) && !(ws[1].1 <= i < ws[1].2) && !(ws[2].1
                <= i < ws[2].2) ==> #[trigger] s6[i] == s3[i],
        s8 == crate::bytes::put_u32(
            crate::bytes::put_u32(s6, nk_off + 0x1004 + 40, l_off),
            nk_off + 0x1004 + 36,
            kept.len() as u32,
        ),
{
    reveal(delete_facts);
    let s0 = h0.data;
    let ol = nk.value_list_offset;
    let ov = existing[iv];
    let od = ovk.data_offset;
    let c_nk = nk_off + 0x1000;
    let a = nk_off + 0x1004;
    lemma_apart_key(h0, nk_off, nk);
    lemma_apart_node(h0, nk_off, nk, existing, iv);
    if kept.len() == 0 {
        assert(keeps_used(s0, s3));
    }
    lemma_key_node_room(s0, nk_off);
    lemma_used_kept(s0, s3, nk_off);
    lemma_used_kept(s0, s3, ov);
    crate::tiling::lemma_tile_bounds(s3, c_nk);
    crate::tiling::lemma_tile_bounds(s3, ov + 0x1000);
    let cv = ov + 0x1000;
    let r0 = if ol != 0 && ol != FREE {
        lemma_used_kept(s0, s3, ol);
        crate::tiling::lemma_tile_bounds(s3, ol + 0x1000);
        (ol + 0x1000, ol + 0x1000, ol + 0x1004)
    } else {
        (cv, cv, cv)
    };
    let r1 = if data_in_cell(ovk) {
        lemma_used_kept(s0, s3, od);
        crate::tiling::lemma_tile_bounds(s3, od + 0x1000);
        (od + 0x1000, od + 0x1000, od + 0x1004)
    } else {
        (cv, cv, cv)
    };
    let r2 = (ov + 0x1000, ov + 0x1000, ov + 0x1004);
    let r3 = (c_nk, a + 36, a + 44);
    let s7 = crate::bytes::put_u32(s6, a + 40, l_off);
    crate::bytes::lemma_put_u32(s6, a + 40, l_off);
    crate::bytes::lemma_put_u32(s7, a + 36, kept.len() as u32);
    seq![r0, r1, r2, r3]
}

} // verus!

verus! {

/// A key node whose cell is kept reads, after its value list and count are
/// written, with those fields changed.
#[verifier::spinoff_prover]
proof fn lemma_key_fields(s2: Seq<u8>, s4: Seq<u8>, s6: Seq<u8>, nk_off: u32, nk: KeyNodeView, l_off: u32, count: u32)
    requires
        used_tile(s2, nk_off + 0x1000),
        key_node_at(s2, nk_off) == Ok::<KeyNodeView, RegError>(nk),
        cell_kept(s2, s4, nk_off),
        s6 == crate::bytes::put_u32(
            crate::bytes::put_u32(s4, nk_off + 0x1004 + 40, l_off),
            nk_off + 0x1004 + 36,
            count,
        ),
    ensures
        key_node_at(s6, nk_off) == Ok::<KeyNodeView, RegError>(
            KeyNodeView { value_list_offset: l_off, value_count: count, ..nk },
        ),
{
    let c_nk = nk_off + 0x1000;
    let a = nk_off + 0x1004;
    lemma_key_node_room(s2, nk_off);
    crate::tiling::lemma_tile_bounds(s2, c_nk);
    let sz = crate::tiling::size_at(s2, c_nk);
    assert(s4.subrange(a, c_nk + sz) =~= s2.subrange(a, c_nk + sz));
    let s5 = crate::bytes::put_u32(s4, a + 40, l_off);
    crate::bytes::lemma_put_u32(s4, a + 40, l_off);
    crate::bytes::lemma_put_u32(s5, a + 36, count);
    assert(s4[c_nk] == s2[c_nk] && s4[c_nk + 1] == s2[c_nk + 1] && s4[c_nk + 2] == s2[c_nk + 2]
        && s4[c_nk + 3] == s2[c_nk + 3]);
    assert(s6[c_nk] == s2[c_nk] && s6[c_nk + 1] == s2[c_nk + 1] && s6[c_nk + 2] == s2[c_nk + 2]
        && s6[c_nk + 3] == s2[c_nk + 3]);
    assert(crate::tiling::size_at(s6, c_nk) == sz);
    lemma_put_in_slice(s4, a, c_nk + sz, 40, l_off);
    lemma_put_in_slice(s5, a, c_nk + sz, 36, count);
    let p2 = s2.subrange(a, c_nk + sz);
    crate::cell::lemma_key_node_values(p2, nk_off, l_off, count);
    crate::cell::lemma_key_node_at(s6, nk_off);
}

/// What the delete facts say, one fact at a time.
#[verifier::spinoff_prover]
proof fn lemma_delete_export(
    h0: HiveView,
    s3: Seq<u8>,
    s6: Seq<u8>,
    s8: Seq<u8>,
    nk_off: u32,
    nk: KeyNodeView,
    existing: Seq<u32>,
    kept: Seq<u32>,
    idx: Seq<int>,
    iv: int,
    ovk: crate::cell::ValueNodeView,
    l_off: u32,
    name: Seq<char>,
)
    requires
        delete_facts(h0, s3, s6, s8, nk_off, nk, existing, kept, idx, iv, ovk, l_off, name),
    ensures
        value_cells_apart(h0, nk_off),
        key_node_at(h0.data, nk_off) == Ok::<KeyNodeView, RegError>(nk),
        value_list(h0.data, nk.value_list_offset, nk.value_count) == Ok::<Seq<u32>, RegError>(existing),
        idx.len() == kept.len(),
        forall|k: int|
            0 <= k < kept.len() ==> 0 <= #[trigger] idx[k] < existing.len() && kept[k] == existing[idx[k]]
                && other_value(h0.data, kept[k], name),
        0 <= iv < existing.len(),
        value_node_at(h0.data, existing[iv]) == Ok::<crate::cell::ValueNodeView, RegError>(ovk),
        name_order(ovk.name, name) == 0,
        kept.len() == 0 ==> s3 == h0.data && l_off == FREE,
        kept.len() > 0 ==> {
            &&& keeps_used(h0.data, s3)
            &&& crate::tiling::bins_tile(s3, 0x1000, s3.len() as int)
            &&& s3.len() <= crate::hbin::max_hive_len()
            &&& used_tile(s3, l_off + 0x1000)
            &&& !used_tile(h0.data, l_off + 0x1000)
            &&& (crate::hbin::payload_range(s3, l_off) matches Ok((x, y)) && y - x >= 4 * kept.len()
                && s3.subrange(x, x + 4 * kept.len()) == crate::cell::le32_list(kept))
        },
        kept.len() < 0x1_0000_0000,
{
    reveal(delete_facts);
}

/// A cell allocated before the delete, apart from the cells it writes,
/// reads the same after it.
#[verifier::spinoff_prover]
proof fn lemma_delete_kept(
    h0: HiveView,
    s3: Seq<u8>,
    s6: Seq<u8>,
    s8: Seq<u8>,
    nk_off: u32,
    nk: KeyNodeView,
    existing: Seq<u32>,
    kept: Seq<u32>,
    idx: Seq<int>,
    iv: int,
    ovk: crate::cell::ValueNodeView,
    l_off: u32,
    name: Seq<char>,
    off: u32,
)
    requires
        delete_facts(h0, s3, s6, s8, nk_off, nk, existing, kept, idx, iv, ovk, l_off, name),
        used_tile(h0.data, off + 0x1000),
        off != nk.value_list_offset,
        off != existing[iv],
        data_in_cell(ovk) ==> off != ovk.data_offset,
        off != nk_off,
    ensures
        crate::cell::cell_payload_spec(s8, off) == crate::cell::cell_payload_spec(h0.data, off),
        value_node_at(s8, off) == value_node_at(h0.data, off),
        cell_kept(h0.data, s8, off),
{
    let ws = lemma_delete_regions(h0, s3, s6, s8, nk_off, nk, existing, kept, idx, iv, ovk, l_off, name);
    lemma_used_kept(h0.data, s3, off);
    lemma_four_writes_keep(s3, s8, ws, off);
    lemma_kept_reads2(h0.data, s3, s8, off);
}

/// The key node's cell is kept through the frees of the delete.
#[verifier::spinoff_prover]
#[verifier::rlimit(60)]
proof fn lemma_delete_nk_kept(
    h0: HiveView,
    s3: Seq<u8>,
    s6: Seq<u8>,
    s8: Seq<u8>,
    nk_off: u32,
    nk: KeyNodeView,
    existing: Seq<u32>,
    kept: Seq<u32>,
    idx: Seq<int>,
    iv: int,
    ovk: crate::cell::ValueNodeView,
    l_off: u32,
    name: Seq<char>,
)
    requires
        delete_facts(h0, s3, s6, s8, nk_off, nk, existing, kept, idx, iv, ovk, l_off, name),
    ensures
        cell_kept(h0.data, s6, nk_off),
        used_tile(h0.data, nk_off + 0x1000),
{
    let ws = lemma_delete_regions(h0, s3, s6, s8, nk_off, nk, existing, kept, idx, iv, ovk, l_off, name);
    lemma_delete_export(h0, s3, s6, s8, nk_off, nk, existing, kept, idx, iv, ovk, l_off, name);
    lemma_apart_key(h0, nk_off, nk);
    lemma_apart_node(h0, nk_off, nk, existing, iv);
    let ov = existing[iv] + 0x1000;
    let ws2 = seq![ws[0], ws[1], ws[2], (ov, ov, ov)];
    crate::tiling::lemma_tile_bounds(s3, ov);
    lemma_used_kept(h0.data, s3, nk_off);
    assert forall|i: int|
        0 <= i < s3.len() && !(ws2[0].1 <= i < ws2[0].2) && !(ws2[1].1 <= i < ws2[1].2) && !(ws2[2].1
            <= i < ws2[2].2) && !(ws2[3].1 <= i < ws2[3].2) implies #[trigger] s6[i] == s3[i] by {}
    lemma_four_writes_keep(s3, s6, ws2, nk_off);
    let c = nk_off + 0x1000;
    assert forall|i: int| c <= i < c + crate::tiling::size_at(h0.data, c) implies #[trigger] s6[i] == h0.data[i] by {
        assert(s3[i] == h0.data[i]);
    }
}

/// The key node after the delete: the new list and count.
#[verifier::spinoff_prover]
proof fn lemma_delete_key(
    h0: HiveView,
    s3: Seq<u8>,
    s6: Seq<u8>,
    s8: Seq<u8>,
    nk_off: u32,
    nk: KeyNodeView,
    existing: Seq<u32>,
    kept: Seq<u32>,
    idx: Seq<int>,
    iv: int,
    ovk: crate::cell::ValueNodeView,
    l_off: u32,
    name: Seq<char>,
)
    requires
        delete_facts(h0, s3, s6, s8, nk_off, nk, existing, kept, idx, iv, ovk, l_off, name),
    ensures
        key_node_at(s8, nk_off) == Ok::<KeyNodeView, RegError>(
            KeyNodeView { value_list_offset: l_off, value_count: kept.len() as u32, ..nk },
        ),
{
    lemma_delete_nk_kept(h0, s3, s6, s8, nk_off, nk, existing, kept, idx, iv, ovk, l_off, name);
    let ws = lemma_delete_regions(h0, s3, s6, s8, nk_off, nk, existing, kept, idx, iv, ovk, l_off, name);
    lemma_delete_export(h0, s3, s6, s8, nk_off, nk, existing, kept, idx, iv, ovk, l_off, name);
    lemma_key_fields(h0.data, s6, s8, nk_off, nk, l_off, kept.len() as u32);
}

/// What a delete leaves: no value of that name under the key node.
#[verifier::spinoff_prover]
#[verifier::rlimit(50)]
proof fn lemma_delete_law(
    h0: HiveView,
    s3: Seq<u8>,
    s6: Seq<u8>,
    s8: Seq<u8>,
    nk_off: u32,
    nk: KeyNodeView,
    existing: Seq<u32>,
    kept: Seq<u32>,
    idx: Seq<int>,
    iv: int,
    ovk: crate::cell::ValueNodeView,
    l_off: u32,
    name: Seq<char>,
)
    requires
        delete_facts(h0, s3, s6, s8, nk_off, nk, existing, kept, idx, iv, ovk, l_off, name),
    ensures
        value_under(s8, nk_off, name) == Some(Lookup::<ValueModel>::NoValue),
{
    lemma_delete_key(h0, s3, s6, s8, nk_off, nk, existing, kept, idx, iv, ovk, l_off, name);
    lemma_delete_export(h0, s3, s6, s8, nk_off, nk, existing, kept, idx, iv, ovk, l_off, name);
    let ws = lemma_delete_regions(h0, s3, s6, s8, nk_off, nk, existing, kept, idx, iv, ovk, l_off, name);
    lemma_apart_key(h0, nk_off, nk);
    lemma_apart_node(h0, nk_off, nk, existing, iv);
    if kept.len() > 0 {
        lemma_four_writes_keep(s3, s8, ws, l_off);
        lemma_cell_kept_reads(s3, s8, l_off);
        let (x, y) = crate::hbin::payload_range(s3, l_off).unwrap();
        let p = s3.subrange(x, y);
        assert(p.subrange(0, 4 * kept.len() as int) =~= s3.subrange(x, x + 4 * kept.len()));
        crate::cell::lemma_le32_list_read(p, kept);
        crate::tiling::lemma_tile_bounds(s3, l_off + 0x1000);
        assert(value_list(s8, l_off, kept.len() as u32) == Ok::<Seq<u32>, RegError>(kept));
        assert forall|k: int| 0 <= k < kept.len() implies #[trigger] other_value(s8, kept[k], name) by {
            let j = idx[k];
            lemma_apart_node(h0, nk_off, nk, existing, j);
            assert(other_value(h0.data, kept[k], name));
            reveal(other_value);
            assert(kept[k] != existing[iv]);
            lemma_delete_kept(h0, s3, s6, s8, nk_off, nk, existing, kept, idx, iv, ovk, l_off, name, kept[k]);
        }
        lemma_find_none(s8, kept, name);
    } else {
        assert(value_list(s8, l_off, 0) == Ok::<Seq<u32>, RegError>(Seq::empty()));
        lemma_find_none(s8, Seq::<u32>::empty(), name);
        assert(kept =~= Seq::<u32>::empty());
    }
}

} // verus!

verus! {

/// The facts of the delete, from what it knows.
#[verifier::spinoff_prover]
proof fn lemma_make_delete_facts(
    h0: HiveView,
    s3: Seq<u8>,
    s6: Seq<u8>,
    s8: Seq<u8>,
    nk_off: u32,
    nk: KeyNodeView,
    existing: Seq<u32>,
    kept: Seq<u32>,
    idx: Seq<int>,
    iv: int,
    ovk: crate::cell::ValueNodeView,
    l_off: u32,
    name: Seq<char>,
)
    requires
        value_cells_apart(h0, nk_off),
        key_node_at(h0.data, nk_off) == Ok::<KeyNodeView, RegError>(nk),
        value_list(h0.data, nk.value_list_offset, nk.value_count) == Ok::<Seq<u32>, RegError>(existing),
        idx.len() == kept.len(),
        kept.len() <= existing.len(),
        forall|k: int|
            0 <= k < kept.len() ==> 0 <= #[trigger] idx[k] < existing.len() && kept[k] == existing[idx[k]]
                && other_value(h0.data, kept[k], name),
        0 <= iv < existing.len(),
        value_node_at(h0.data, existing[iv]) == Ok::<crate::cell::ValueNodeView, RegError>(ovk),
        name_order(ovk.name, name) == 0,
        kept.len() == 0 ==> s3 == h0.data && l_off == FREE,
        kept.len() > 0 ==> {
            &&& keeps_used(h0.data, s3)
            &&& crate::tiling::bins_tile(s3, 0x1000, s3.len() as int)
            &&& s3.len() <= crate::hbin::max_hive_len()
            &&& used_tile(s3, l_off + 0x1000)
            &&& !used_tile(h0.data, l_off + 0x1000)
            &&& (crate::hbin::payload_range(s3, l_off) matches Ok((x, y)) && y - x >= 4 * kept.len()
                && s3.subrange(x, x + 4 * kept.len()) == crate::cell::le32_list(kept))
        },
        s6.len() == s3.len(),
        forall|x: int|
            0 <= x < s3.len() && !(nk.value_list_offset != 0 && nk.value_list_offset != FREE
                && nk.value_list_offset + 0x1000 <= x < nk.value_list_offset + 0x1004) && !(data_in_cell(
                ovk) && ovk.data_offset + 0x1000 <= x < ovk.data_offset + 0x1004) && !(existing[iv]
                + 0x1000 <= x < existing[iv] + 0x1004) ==> #[trigger] s6[x] == s3[x],
        existing.len() < 0x1_0000_0000,
        s8 == crate::bytes::put_u32(
            crate::bytes::put_u32(s6, nk_off + 0x1004 + 40, l_off),
            nk_off + 0x1004 + 36,
            kept.len() as u32,
        ),
    ensures
        delete_facts(h0, s3, s6, s8, nk_off, nk, existing, kept, idx, iv, ovk, l_off, name),
{
    reveal(delete_facts);
}

} // verus!

verus! {

/// `o` is one of the cells that a value write under the key node at
/// `nk_off` may write: the node, its value list, its value nodes and their
/// data cells.
pub open spec fn value_cell(d: Seq<u8>, nk_off: u32, o: u32) -> bool {
    o == nk_off || match key_node_at(d, nk_off) {
        Err(_) => false,
        Ok(nk) => o == nk.value_list_offset || match value_list(d, nk.value_list_offset, nk.value_count) {
            Err(_) => false,
            Ok(offs) => exists|j: int|
                0 <= j < offs.len() && (offs[j] == o || (#[trigger] value_node_at(d, offs[j]) matches Ok(
                    vk,
                ) && data_in_cell(vk) && vk.data_offset == o)),
        },
    }
}

/// Every allocated cell of `d` apart from those a value write under the
/// key node at `nk_off` may write keeps its bytes in `d2`.
pub open spec fn keeps_other_cells(d: Seq<u8>, d2: Seq<u8>, nk_off: u32) -> bool {
    forall|o: u32|
        used_tile(d, o + 0x1000) && !value_cell(d, nk_off, o) ==> #[trigger] cell_kept(d, d2, o)
}

/// A value node of the key node, or its data cell, is a value cell.
proof fn lemma_value_cell_at(d: Seq<u8>, nk_off: u32, nk: KeyNodeView, offs: Seq<u32>, j: int)
    requires
        key_node_at(d, nk_off) == Ok::<KeyNodeView, RegError>(nk),
        value_list(d, nk.value_list_offset, nk.value_count) == Ok::<Seq<u32>, RegError>(offs),
        0 <= j < offs.len(),
    ensures
        value_cell(d, nk_off, offs[j]),
        value_node_at(d, offs[j]) matches Ok(vk) ==> (data_in_cell(vk) ==> value_cell(d, nk_off, vk.data_offset)),
{
    assert(value_node_at(d, offs[j]) == value_node_at(d, offs[j]));
}

/// Cells kept through `keeps_used` then kept through later writes are kept.
proof fn lemma_kept_chain(d: Seq<u8>, d2: Seq<u8>, d3: Seq<u8>, off: u32)
    requires
        used_tile(d, off + 0x1000),
        keeps_used(d, d2),
        cell_kept(d2, d3, off),
    ensures
        cell_kept(d, d3, off),
{
    lemma_used_kept(d, d2, off);
}

} // verus!

verus! {

/// The append path keeps every cell but the value cells of the key node.
#[verifier::spinoff_prover]
proof fn lemma_append_others(
    h0: HiveView,
    s2: Seq<u8>,
    s3: Seq<u8>,
    s4: Seq<u8>,
    s6: Seq<u8>,
    nk_off: u32,
    nk: KeyNodeView,
    existing: Seq<u32>,
    v_off: u32,
    vk: crate::cell::ValueNodeView,
    l_off: u32,
    name: Seq<char>,
)
    requires
        write_ready(h0, s2, nk_off, nk, existing, v_off, vk, name),
        append_facts(s2, s3, s4, s6, nk_off, nk, existing, v_off, vk, l_off, name),
    ensures
        keeps_other_cells(h0.data, s6, nk_off),
        key_same(h0.data, s6, nk_off),
{
    lemma_write_ready(h0, s2, nk_off, nk, existing, v_off, vk, name);
    lemma_append_export(s2, s3, s4, s6, nk_off, nk, existing, v_off, vk, l_off, name);
    let _ = lemma_append_regions(s2, s3, s4, s6, nk_off, nk, existing, v_off, vk, l_off, name);
    if nk.value_list_offset != 0 && nk.value_list_offset != FREE {
        lemma_used_kept(s2, s3, nk.value_list_offset);
    }
    lemma_append_key(s2, s3, s4, s6, nk_off, nk, l_off, (existing.len() + 1) as u32);
    assert forall|o: u32|
        used_tile(h0.data, o + 0x1000) && !value_cell(h0.data, nk_off, o) implies #[trigger] cell_kept(
        h0.data,
        s6,
        o,
    ) by {
        lemma_used_kept(h0.data, s2, o);
        lemma_append_kept(s2, s3, s4, s6, nk_off, nk, existing, v_off, vk, l_off, name, o);
        lemma_kept_chain(h0.data, s2, s6, o);
    }
}

/// The replace path keeps every cell but the value cells of the key node.
#[verifier::spinoff_prover]
proof fn lemma_replace_others(
    h0: HiveView,
    s2: Seq<u8>,
    s3: Seq<u8>,
    s4: Seq<u8>,
    s5: Seq<u8>,
    nk_off: u32,
    nk: KeyNodeView,
    existing: Seq<u32>,
    i: int,
    ovk: crate::cell::ValueNodeView,
    v_off: u32,
    vk: crate::cell::ValueNodeView,
    name: Seq<char>,
)
    requires
        write_ready(h0, s2, nk_off, nk, existing, v_off, vk, name),
        replace_facts(s2, s3, s4, s5, nk_off, nk, existing, i, ovk, v_off, vk, name),
    ensures
        keeps_other_cells(h0.data, s5, nk_off),
        key_same(h0.data, s5, nk_off),
{
    lemma_write_ready(h0, s2, nk_off, nk, existing, v_off, vk, name);
    lemma_replace_export(s2, s3, s4, s5, nk_off, nk, existing, i, ovk, v_off, vk, name);
    lemma_replace_kept(s2, s3, s4, s5, nk_off, nk, existing, i, ovk, v_off, vk, name, nk_off);
    lemma_value_cell_at(h0.data, nk_off, nk, existing, i);
    assert forall|o: u32|
        used_tile(h0.data, o + 0x1000) && !value_cell(h0.data, nk_off, o) implies #[trigger] cell_kept(
        h0.data,
        s5,
        o,
    ) by {
        assert(value_node_at(h0.data, existing[i]) == value_node_at(s2, existing[i]));
        lemma_used_kept(h0.data, s2, o);
        lemma_replace_kept(s2, s3, s4, s5, nk_off, nk, existing, i, ovk, v_off, vk, name, o);
        lemma_kept_chain(h0.data, s2, s5, o);
    }
}

/// The delete keeps every cell but the value cells of the key node.
#[verifier::spinoff_prover]
proof fn lemma_delete_others(
    h0: HiveView,
    s3: Seq<u8>,
    s6: Seq<u8>,
    s8: Seq<u8>,
    nk_off: u32,
    nk: KeyNodeView,
    existing: Seq<u32>,
    kept: Seq<u32>,
    idx: Seq<int>,
    iv: int,
    ovk: crate::cell::ValueNodeView,
    l_off: u32,
    name: Seq<char>,
)
    requires
        delete_facts(h0, s3, s6, s8, nk_off, nk, existing, kept, idx, iv, ovk, l_off, name),
    ensures
        keeps_other_cells(h0.data, s8, nk_off),
        key_same(h0.data, s8, nk_off),
{
    lemma_delete_key(h0, s3, s6, s8, nk_off, nk, existing, kept, idx, iv, ovk, l_off, name);
    lemma_delete_export(h0, s3, s6, s8, nk_off, nk, existing, kept, idx, iv, ovk, l_off, name);
    lemma_value_cell_at(h0.data, nk_off, nk, existing, iv);
    assert forall|o: u32|
        used_tile(h0.data, o + 0x1000) && !value_cell(h0.data, nk_off, o) implies #[trigger] cell_kept(
        h0.data,
        s8,
        o,
    ) by {
        lemma_delete_kept(h0, s3, s6, s8, nk_off, nk, existing, kept, idx, iv, ovk, l_off, name, o);
    }
}

} // verus!

verus! {

/// The list cells that reading the subkey list at `off` (with `fuel`
/// levels of `ri` lists) reads all satisfy `ok`.
pub open spec fn list_cells_ok(d: Seq<u8>, off: u32, fuel: nat, ok: spec_fn(u32) -> bool) -> bool
    decreases fuel, 0nat, 0nat,
{
    if off == 0 || off == FREE {
        true
    } else {
        ok(off) && match crate::cell::cell_payload_spec(d, off) {
            Err(_) => true,
            Ok(p) => if p.len() >= 4 && crate::cell::has_magic(p, 0x72, 0x69) && fuel > 0 {
                ri_cells_ok(
                    d,
                    crate::cell::offsets_in(p, 4, 4, crate::bytes::u16_at(p, 2) as nat),
                    (fuel - 1) as nat,
                    ok,
                )
            } else {
                true
            },
        }
    }
}

/// The list cells of the lists `children` all satisfy `ok`.
pub open spec fn ri_cells_ok(d: Seq<u8>, children: Seq<u32>, fuel: nat, ok: spec_fn(u32) -> bool) -> bool
    decreases fuel, 1nat, children.len(),
{
    if children.len() == 0 {
        true
    } else {
        list_cells_ok(d, children[0], fuel, ok) && ri_cells_ok(d, children.skip(1), fuel, ok)
    }
}

/// The key nodes that a scan of `offs` for `name` reads all satisfy `ok`.
pub open spec fn scan_cells_ok(d: Seq<u8>, offs: Seq<u32>, name: Seq<char>, ok: spec_fn(u32) -> bool) -> bool
    decreases offs.len(),
{
    if offs.len() == 0 {
        true
    } else {
        ok(offs[0]) && match key_node_at(d, offs[0]) {
            Err(_) => true,
            Ok(c) => name_order(c.name, name) == 0 || scan_cells_ok(d, offs.skip(1), name, ok),
        }
    }
}

/// The cells that following the path components `parts` from the key node
/// at `cur` reads: the key nodes satisfy `okk`, the subkey lists `okl`.
pub open spec fn path_cells_ok(
    d: Seq<u8>,
    cur: u32,
    parts: Seq<Seq<char>>,
    okk: spec_fn(u32) -> bool,
    okl: spec_fn(u32) -> bool,
) -> bool
    decreases parts.len(),
{
    if parts.len() == 0 {
        true
    } else {
        okk(cur) && match key_node_at(d, cur) {
            Err(_) => true,
            Ok(nk) => list_cells_ok(d, nk.subkey_list_offset, crate::cell::ri_depth(), okl) && match subkey_list(
                d,
                nk.subkey_list_offset,
            ) {
                Err(_) => true,
                Ok(offs) => scan_cells_ok(d, offs, parts[0], okk) && match first_match(
                    d,
                    offs,
                    parts[0],
                ) {
                    Ok(Some(o)) => path_cells_ok(d, o, parts.skip(1), okk, okl),
                    _ => true,
                },
            },
        }
    }
}

/// Reading the key node at `o` gives the same result, name and subkey list
/// in `d` and `d2` (its value list and count may differ).
pub open spec fn key_same(d: Seq<u8>, d2: Seq<u8>, o: u32) -> bool {
    match (key_node_at(d, o), key_node_at(d2, o)) {
        (Err(e1), Err(e2)) => e1 == e2,
        (Ok(a), Ok(b)) => a.name == b.name && a.subkey_list_offset == b.subkey_list_offset,
        _ => false,
    }
}

/// A subkey list reads the same where its cells do.
proof fn lemma_list_frame(d: Seq<u8>, d2: Seq<u8>, off: u32, fuel: nat, ok: spec_fn(u32) -> bool)
    requires
        list_cells_ok(d, off, fuel, ok),
        forall|o: u32| #[trigger] ok(o) ==> crate::cell::cell_payload_spec(d2, o) == crate::cell::cell_payload_spec(d, o),
    ensures
        subkeys_fuel(d2, off, fuel) == subkeys_fuel(d, off, fuel),
    decreases fuel, 0nat, 0nat,
{
    if off != 0 && off != FREE {
        assert(ok(off));
        match crate::cell::cell_payload_spec(d, off) {
            Err(_) => {},
            Ok(p) => {
                if p.len() >= 4 && crate::cell::has_magic(p, 0x72, 0x69) && fuel > 0 {
                    lemma_ri_frame(
                        d,
                        d2,
                        crate::cell::offsets_in(p, 4, 4, crate::bytes::u16_at(p, 2) as nat),
                        (fuel - 1) as nat,
                        ok,
                    );
                }
            },
        }
    }
}

/// The concatenated lists read the same where their cells do.
proof fn lemma_ri_frame(d: Seq<u8>, d2: Seq<u8>, children: Seq<u32>, fuel: nat, ok: spec_fn(u32) -> bool)
    requires
        ri_cells_ok(d, children, fuel, ok),
        forall|o: u32| #[trigger] ok(o) ==> crate::cell::cell_payload_spec(d2, o) == crate::cell::cell_payload_spec(d, o),
    ensures
        ri_concat(d2, children, fuel) == ri_concat(d, children, fuel),
    decreases fuel, 1nat, children.len(),
{
    if children.len() > 0 {
        lemma_list_frame(d, d2, children[0], fuel, ok);
        lemma_ri_frame(d, d2, children.skip(1), fuel, ok);
    }
}

/// A scan by name reads the same where the key nodes it reads do.
proof fn lemma_scan_frame(d: Seq<u8>, d2: Seq<u8>, offs: Seq<u32>, name: Seq<char>, ok: spec_fn(u32) -> bool)
    requires
        scan_cells_ok(d, offs, name, ok),
        forall|o: u32| #[trigger] ok(o) ==> key_same(d, d2, o),
    ensures
        first_match(d2, offs, name) == first_match(d, offs, name),
    decreases offs.len(),
{
    if offs.len() > 0 {
        assert(ok(offs[0]));
        assert(key_same(d, d2, offs[0]));
        match key_node_at(d, offs[0]) {
            Err(_) => {},
            Ok(c) => {
                if name_order(c.name, name) != 0 {
                    lemma_scan_frame(d, d2, offs.skip(1), name, ok);
                }
            },
        }
    }
}

/// Following a path reads the same where the cells it reads do.
proof fn lemma_path_frame(
    d: Seq<u8>,
    d2: Seq<u8>,
    cur: u32,
    parts: Seq<Seq<char>>,
    okk: spec_fn(u32) -> bool,
    okl: spec_fn(u32) -> bool,
)
    requires
        path_cells_ok(d, cur, parts, okk, okl),
        forall|o: u32| #[trigger] okk(o) ==> key_same(d, d2, o),
        forall|o: u32| #[trigger] okl(o) ==> crate::cell::cell_payload_spec(d2, o) == crate::cell::cell_payload_spec(d, o),
    ensures
        resolve_from(d2, cur, parts) == resolve_from(d, cur, parts),
    decreases parts.len(),
{
    if parts.len() > 0 {
        assert(okk(cur));
        assert(key_same(d, d2, cur));
        match key_node_at(d, cur) {
            Err(_) => {},
            Ok(nk) => {
                lemma_list_frame(d, d2, nk.subkey_list_offset, crate::cell::ri_depth(), okl);
                match subkey_list(d, nk.subkey_list_offset) {
                    Err(_) => {},
                    Ok(offs) => {
                        lemma_scan_frame(d, d2, offs, parts[0], okk);
                        match first_match(d, offs, parts[0]) {
                            Ok(Some(o)) => {
                                lemma_path_frame(d, d2, o, parts.skip(1), okk, okl);
                            },
                            _ => {},
                        }
                    },
                }
            },
        }
    }
}

} // verus!

verus! {

/// The key nodes a path may read when a value write under the key node at
/// `nk_off` is to leave it alone: allocated cells that are that node or no
/// value cell of it.
pub open spec fn key_cells_apart(d: Seq<u8>, nk_off: u32) -> spec_fn(u32) -> bool {
    |o: u32| used_tile(d, o + 0x1000) && (o == nk_off || !value_cell(d, nk_off, o))
}

/// The subkey lists a path may read then: allocated cells that are no value
/// cell of the key node at `nk_off`.
pub open spec fn list_cells_apart(d: Seq<u8>, nk_off: u32) -> spec_fn(u32) -> bool {
    |o: u32| used_tile(d, o + 0x1000) && !value_cell(d, nk_off, o)
}

/// Following `path` from the root reads, as key nodes, only the key node at
/// `nk_off` or allocated cells that are no value cell of it, and, as subkey
/// lists, only allocated cells that are no value cell of it.
pub open spec fn path_apart(h: HiveView, path: Seq<char>, nk_off: u32) -> bool {
    path_cells_ok(
        h.data,
        h.header.root_cell_offset,
        path_parts(path),
        key_cells_apart(h.data, nk_off),
        list_cells_apart(h.data, nk_off),
    )
}

/// A key node the path reads reads the same after the write.
proof fn lemma_key_cell_kept(d: Seq<u8>, d2: Seq<u8>, nk_off: u32, o: u32)
    requires
        keeps_other_cells(d, d2, nk_off),
        key_same(d, d2, nk_off),
        used_tile(d, o + 0x1000),
        o == nk_off || !value_cell(d, nk_off, o),
    ensures
        key_same(d, d2, o),
{
    if o != nk_off {
        assert(cell_kept(d, d2, o));
        lemma_cell_kept_reads(d, d2, o);
    }
}

/// A subkey list the path reads reads the same after the write.
proof fn lemma_list_cell_kept(d: Seq<u8>, d2: Seq<u8>, nk_off: u32, o: u32)
    requires
        keeps_other_cells(d, d2, nk_off),
        used_tile(d, o + 0x1000),
        !value_cell(d, nk_off, o),
    ensures
        crate::cell::cell_payload_spec(d2, o) == crate::cell::cell_payload_spec(d, o),
{
    assert(cell_kept(d, d2, o));
    lemma_cell_kept_reads(d, d2, o);
}

/// A write that keeps every cell but the value cells of the key node at
/// `nk_off`, and that key node's name and subkey list, leaves every path
/// that reads none of those value cells naming the same key.
pub proof fn lemma_path_kept(h: HiveView, h2: HiveView, path: Seq<char>, nk_off: u32)
    requires
        h2.header.root_cell_offset == h.header.root_cell_offset,
        keeps_other_cells(h.data, h2.data, nk_off),
        key_same(h.data, h2.data, nk_off),
        path_apart(h, path, nk_off),
    ensures
        resolve_spec(h2, path) == resolve_spec(h, path),
{
    let d = h.data;
    let d2 = h2.data;
    let okk = key_cells_apart(d, nk_off);
    let okl = list_cells_apart(d, nk_off);
    assert forall|o: u32| #[trigger] okk(o) implies key_same(d, d2, o) by {
        lemma_key_cell_kept(d, d2, nk_off, o);
    }
    assert forall|o: u32| #[trigger] okl(o) implies crate::cell::cell_payload_spec(d2, o)
        == crate::cell::cell_payload_spec(d, o) by {
        lemma_list_cell_kept(d, d2, nk_off, o);
    }
    lemma_path_frame(d, d2, h.header.root_cell_offset, path_parts(path), okk, okl);
}

} // verus!

verus! {

/// No key node among `offs` is named `name`: each reads, under another name.
proof fn lemma_first_match_none(d: Seq<u8>, offs: Seq<u32>, name: Seq<char>)
    requires
        first_match(d, offs, name) == Ok::<Option<u32>, RegError>(None),
    ensures
        forall|k: int|
            0 <= k < offs.len() ==> #[trigger] key_node_at(d, offs[k]) is Ok && name_order(
                key_node_at(d, offs[k])->Ok_0.name,
                name,
            ) != 0,
    decreases offs.len(),
{
    if offs.len() > 0 {
        lemma_first_match_none(d, offs.skip(1), name);
        assert forall|k: int| 0 <= k < offs.len() implies #[trigger] key_node_at(d, offs[k]) is Ok
            && name_order(key_node_at(d, offs[k])->Ok_0.name, name) != 0 by {
            if k > 0 {
                assert(offs[k] == offs.skip(1)[k - 1]);
            }
        }
    }
}

/// Among key nodes that all read, only `t` named `name`, and `t` among
/// them: the scan by name finds `t`.
proof fn lemma_first_match_unique(d: Seq<u8>, offs: Seq<u32>, name: Seq<char>, t: u32)
    requires
        forall|k: int|
            0 <= k < offs.len() ==> #[trigger] key_node_at(d, offs[k]) is Ok && (name_order(
                key_node_at(d, offs[k])->Ok_0.name,
                name,
            ) == 0 <==> offs[k] == t),
        offs.contains(t),
    ensures
        first_match(d, offs, name) == Ok::<Option<u32>, RegError>(Some(t)),
    decreases offs.len(),
{
    assert(key_node_at(d, offs[0]) is Ok);
    if offs[0] != t {
        let j = choose|j: int| 0 <= j < offs.len() && offs[j] == t;
        assert(offs.skip(1)[j - 1] == t);
        assert forall|k: int| 0 <= k < offs.skip(1).len() implies #[trigger] key_node_at(d, offs.skip(1)[k]) is Ok
            && (name_order(key_node_at(d, offs.skip(1)[k])->Ok_0.name, name) == 0 <==> offs.skip(1)[k]
            == t) by {
            assert(offs.skip(1)[k] == offs[k + 1]);
        }
        lemma_first_match_unique(d, offs.skip(1), name, t);
    }
}

/// Key nodes that read with the names of `es`, at its offsets, give `es`
/// as their entries.
proof fn lemma_entries_match(d: Seq<u8>, offs: Seq<u32>, es: Seq<(Seq<char>, u32)>)
    requires
        es.len() == offs.len(),
        forall|k: int|
            0 <= k < offs.len() ==> #[trigger] key_node_at(d, offs[k]) is Ok && key_node_at(d, offs[k])->Ok_0.name
                == es[k].0 && es[k].1 == offs[k],
    ensures
        entries_of(d, offs) == Ok::<Seq<(Seq<char>, u32)>, RegError>(es),
    decreases offs.len(),
{
    if offs.len() > 0 {
        assert(key_node_at(d, offs[0]) is Ok);
        assert forall|k: int| 0 <= k < offs.skip(1).len() implies #[trigger] key_node_at(d, offs.skip(1)[k]) is Ok
            && key_node_at(d, offs.skip(1)[k])->Ok_0.name == es.skip(1)[k].0 && es.skip(1)[k].1
            == offs.skip(1)[k] by {
            assert(offs.skip(1)[k] == offs[k + 1]);
        }
        lemma_entries_match(d, offs.skip(1), es.skip(1));
        assert(seq![(key_node_at(d, offs[0])->Ok_0.name, offs[0])] + es.skip(1) =~= es);
    } else {
        assert(es =~= Seq::<(Seq<char>, u32)>::empty());
    }
}

/// Entries read from key nodes that all read the same in `d2`.
proof fn lemma_entries_frame(d: Seq<u8>, d2: Seq<u8>, offs: Seq<u32>)
    requires
        forall|k: int| 0 <= k < offs.len() ==> #[trigger] key_node_at(d2, offs[k]) == key_node_at(d, offs[k]),
    ensures
        entries_of(d2, offs) == entries_of(d, offs),
    decreases offs.len(),
{
    if offs.len() > 0 {
        assert(key_node_at(d2, offs[0]) == key_node_at(d, offs[0]));
        assert forall|k: int| 0 <= k < offs.skip(1).len() implies #[trigger] key_node_at(d2, offs.skip(1)[k])
            == key_node_at(d, offs.skip(1)[k]) by {
            assert(offs.skip(1)[k] == offs[k + 1]);
        }
        lemma_entries_frame(d, d2, offs.skip(1));
    }
}

/// The entries of key nodes that all read: their names, at their offsets.
proof fn lemma_entries_read(d: Seq<u8>, offs: Seq<u32>)
    requires
        forall|k: int| 0 <= k < offs.len() ==> #[trigger] key_node_at(d, offs[k]) is Ok,
    ensures
        entries_of(d, offs) matches Ok(es) && es.len() == offs.len() && forall|k: int|
            0 <= k < offs.len() ==> #[trigger] es[k] == (key_node_at(d, offs[k])->Ok_0.name, offs[k]),
    decreases offs.len(),
{
    if offs.len() > 0 {
        assert(key_node_at(d, offs[0]) is Ok);
        assert forall|k: int| 0 <= k < offs.skip(1).len() implies #[trigger] key_node_at(d, offs.skip(1)[k]) is Ok by {
            assert(offs.skip(1)[k] == offs[k + 1]);
        }
        lemma_entries_read(d, offs.skip(1));
        let es = entries_of(d, offs)->Ok_0;
        let rest = entries_of(d, offs.skip(1))->Ok_0;
        assert forall|k: int| 0 <= k < offs.len() implies #[trigger] es[k] == (key_node_at(d, offs[k])->Ok_0.name, offs[k]) by {
            if k > 0 {
                assert(es[k] == rest[k - 1]);
                assert(offs.skip(1)[k - 1] == offs[k]);
            }
        }
    }
}

} // verus!

verus! {

/// Allocated cells of `d` other than `sk`.
pub open spec fn alive_but(d: Seq<u8>, sk: u32) -> spec_fn(u32) -> bool {
    |o: u32| used_tile(d, o + 0x1000) && o != sk
}

/// The key node at `parent` (read as `pk`), its security cell, the subkey
/// lists a new subkey list replaces and its subkeys are distinct allocated
/// cells, and it has fewer than 0xFFFF subkeys.
pub open spec fn insert_cells_apart(d: Seq<u8>, parent: u32, pk: KeyNodeView) -> bool {
    let sk = pk.security_offset;
    let fs = lists_freed(d, pk.subkey_list_offset);
    let offs = subkey_list(d, pk.subkey_list_offset)->Ok_0;
    &&& used_tile(d, sk + 0x1000)
    &&& sk != parent
    &&& forall|k: int|
        0 <= k < fs.len() ==> used_tile(d, #[trigger] fs[k] + 0x1000) && fs[k] != parent && fs[k] != sk
    &&& list_cells_ok(d, pk.subkey_list_offset, crate::cell::ri_depth(), alive_but(d, sk))
    &&& subkey_list(d, pk.subkey_list_offset) is Ok
    &&& offs.len() < 0xFFFF
    &&& forall|k: int|
        0 <= k < offs.len() ==> used_tile(d, #[trigger] offs[k] + 0x1000) && offs[k] != parent
            && offs[k] != sk && !fs.contains(offs[k])
}

/// What inserting a subkey named `name` under the key node at `parent`
/// needs for the new key to read back: a tiled hive whose parent key node
/// reads, with its cells apart, no subkey of that name yet, and a name whose
/// stored bytes fit its 16-bit length.
#[verifier::opaque]
pub open spec fn insert_ready(h: HiveView, parent: u32, name: Seq<char>) -> bool {
    &&& tiled(h.data, h.header.hive_bins_size)
    &&& used_tile(h.data, parent + 0x1000)
    &&& find_child_spec(h.data, parent, name) == Ok::<Option<u32>, RegError>(None)
    &&& crate::cell::name_to_bytes(name, vstd::utf8::is_ascii_chars(name)).len() <= 0xFFFF
    &&& key_node_at(h.data, parent) is Ok
    &&& insert_cells_apart(h.data, parent, key_node_at(h.data, parent)->Ok_0)
    &&& lists_freed(h.data, key_node_at(h.data, parent)->Ok_0.subkey_list_offset).no_duplicates()
    &&& (lists_freed(h.data, key_node_at(h.data, parent)->Ok_0.subkey_list_offset).len() == 0
        || h.data.len() <= 0x7FF0_0000)
}

/// A cell allocated in `d` that a subkey insertion under the key node
/// `pk` at `parent` leaves alone: not the parent, its security cell or a
/// subkey list it replaces.
pub open spec fn insert_keeps(d: Seq<u8>, parent: u32, pk: KeyNodeView, o: u32) -> bool {
    &&& used_tile(d, o + 0x1000)
    &&& o != parent
    &&& o != pk.security_offset
    &&& !lists_freed(d, pk.subkey_list_offset).contains(o)
}

/// What an insertion of the subkey `name` at `new_off` under the key node
/// at `parent` leaves: the subkey found by name, a new key node with that
/// name and no subkey or value, the parent with its name and security and
/// its subkeys sorted by name, and every other cell kept.
/// The part of [`insert_done`] about the parent, its subkeys and the
/// other cells.
#[verifier::opaque]
pub open spec fn insert_core_done(h: HiveView, h2: HiveView, parent: u32, name: Seq<char>, new_off: u32) -> bool {
    let pk = key_node_at(h.data, parent)->Ok_0;
    &&& find_child_spec(h2.data, parent, name) == Ok::<Option<u32>, RegError>(Some(new_off))
    &&& key_node_at(h2.data, new_off) == Ok::<KeyNodeView, RegError>(
        KeyNodeView {
            name,
            subkey_count: 0,
            subkey_list_offset: FREE,
            value_count: 0,
            value_list_offset: FREE,
            security_offset: pk.security_offset,
        },
    )
    &&& key_node_at(h2.data, parent) is Ok
    &&& key_node_at(h2.data, parent)->Ok_0.name == pk.name
    &&& key_node_at(h2.data, parent)->Ok_0.security_offset == pk.security_offset
    &&& child_entries_spec(h2.data, parent) is Ok
    &&& sorted_by_name(child_entries_spec(h2.data, parent)->Ok_0)
    &&& !used_tile(h.data, new_off + 0x1000)
    &&& forall|o: u32| insert_keeps(h.data, parent, pk, o) ==> #[trigger] cell_kept(h.data, h2.data, o)
}

/// The part of [`insert_done`] about the tiling and the new cells.
#[verifier::opaque]
pub open spec fn insert_chain_done(h: HiveView, h2: HiveView, parent: u32, new_off: u32) -> bool {
    let pk = key_node_at(h.data, parent)->Ok_0;
    &&& forall|o: u32| insert_keeps(h.data, parent, pk, o) ==> #[trigger] used_tile(h2.data, o + 0x1000)
    &&& tiled(h2.data, h2.header.hive_bins_size)
    &&& h2.data.len() <= h.data.len() + 0x10_0000
    &&& used_tile(h2.data, new_off + 0x1000)
    &&& used_tile(h2.data, parent + 0x1000)
    &&& used_tile(h2.data, pk.security_offset + 0x1000)
    &&& new_off != pk.security_offset
    &&& new_off != parent
    &&& parent != pk.security_offset
    &&& new_list_apart(h.data, h2.data, parent, pk, new_off)
}

/// What an insertion of the subkey `name` at `new_off` under the key node
/// at `parent` leaves: the subkey found by name, a new key node with that
/// name and no subkey or value, the parent with its name and security and
/// its subkeys sorted by name, every other cell kept, and the hive tiled
/// with the new cells allocated.
#[verifier::opaque]
pub open spec fn insert_done(h: HiveView, h2: HiveView, parent: u32, name: Seq<char>, new_off: u32) -> bool {
    &&& insert_core_done(h, h2, parent, name, new_off)
    &&& insert_chain_done(h, h2, parent, new_off)
}

/// The subkey list that an insertion under the key node `pk` at `parent`
/// gave it: a new allocated cell, no `ri` list, apart from the parent, its
/// security cell and the new key node, listing the new key node and cells
/// the insertion leaves alone.
pub open spec fn new_list_apart(d: Seq<u8>, d2: Seq<u8>, parent: u32, pk: KeyNodeView, new_off: u32) -> bool {
    let l = key_node_at(d2, parent)->Ok_0.subkey_list_offset;
    &&& used_tile(d2, l + 0x1000)
    &&& !used_tile(d, l + 0x1000)
    &&& l != pk.security_offset
    &&& l != parent
    &&& l != new_off
    &&& l != 0
    &&& l != FREE
    &&& crate::cell::cell_payload_spec(d2, l) is Ok
    &&& !crate::cell::has_magic(crate::cell::cell_payload_spec(d2, l)->Ok_0, 0x72, 0x69)
    &&& subkey_list(d2, l) is Ok
    &&& forall|k: int|
        0 <= k < subkey_list(d2, l)->Ok_0.len() ==> #[trigger] subkey_list(d2, l)->Ok_0[k] == new_off
            || insert_keeps(d, parent, pk, subkey_list(d2, l)->Ok_0[k])
}

/// A cell kept from `a` to `b` and from `b` to `c` is kept from `a` to `c`.
proof fn lemma_cell_kept_trans(a: Seq<u8>, b: Seq<u8>, c: Seq<u8>, off: u32)
    requires
        is_tile(a, off + 0x1000),
        cell_kept(a, b, off),
        cell_kept(b, c, off),
    ensures
        cell_kept(a, c, off),
        crate::tiling::size_at(b, off + 0x1000) == crate::tiling::size_at(a, off + 0x1000),
{
    let x = off + 0x1000;
    crate::tiling::lemma_tile_bounds(a, x);
    assert(b[x] == a[x] && b[x + 1] == a[x + 1] && b[x + 2] == a[x + 2] && b[x + 3] == a[x + 3]);
    assert(crate::bytes::i32_at(b, x) == crate::bytes::i32_at(a, x));
}

/// A key node whose cell is kept reads, after its subkey list and count
/// are written, with those fields changed.
#[verifier::spinoff_prover]
proof fn lemma_key_subkey_fields(s2: Seq<u8>, s4: Seq<u8>, s6: Seq<u8>, nk_off: u32, nk: KeyNodeView, l_off: u32, count: u32)
    requires
        used_tile(s2, nk_off + 0x1000),
        key_node_at(s2, nk_off) == Ok::<KeyNodeView, RegError>(nk),
        cell_kept(s2, s4, nk_off),
        s6 == crate::bytes::put_u32(
            crate::bytes::put_u32(s4, nk_off + 0x1004 + 28, l_off),
            nk_off + 0x1004 + 20,
            count,
        ),
    ensures
        key_node_at(s6, nk_off) == Ok::<KeyNodeView, RegError>(
            KeyNodeView { subkey_list_offset: l_off, subkey_count: count, ..nk },
        ),
{
    let c_nk = nk_off + 0x1000;
    let a = nk_off + 0x1004;
    lemma_key_node_room(s2, nk_off);
    crate::tiling::lemma_tile_bounds(s2, c_nk);
    let sz = crate::tiling::size_at(s2, c_nk);
    assert(s4.subrange(a, c_nk + sz) =~= s2.subrange(a, c_nk + sz));
    let s5 = crate::bytes::put_u32(s4, a + 28, l_off);
    crate::bytes::lemma_put_u32(s4, a + 28, l_off);
    crate::bytes::lemma_put_u32(s5, a + 20, count);
    assert(s4[c_nk] == s2[c_nk] && s4[c_nk + 1] == s2[c_nk + 1] && s4[c_nk + 2] == s2[c_nk + 2]
        && s4[c_nk + 3] == s2[c_nk + 3]);
    assert(s6[c_nk] == s2[c_nk] && s6[c_nk + 1] == s2[c_nk + 1] && s6[c_nk + 2] == s2[c_nk + 2]
        && s6[c_nk + 3] == s2[c_nk + 3]);
    assert(crate::tiling::size_at(s6, c_nk) == sz);
    lemma_put_in_slice(s4, a, c_nk + sz, 28, l_off);
    lemma_put_in_slice(s5, a, c_nk + sz, 20, count);
    let p2 = s2.subrange(a, c_nk + sz);
    crate::cell::lemma_key_node_subkeys(p2, nk_off, l_off, count);
    crate::cell::lemma_key_node_at(s6, nk_off);
}

/// A cell of the tiled `d3` apart from the freed lists `fs` and from the
/// parent at `parent` keeps its bytes through the frees and the two field
/// writes in the parent.
proof fn lemma_insert_tail_keep(d3: Seq<u8>, d4: Seq<u8>, d6: Seq<u8>, fs: Seq<u32>, parent: u32, o: u32)
    requires
        crate::tiling::bins_tile(d3, 0x1000, d3.len() as int),
        is_tile(d3, o + 0x1000),
        !fs.contains(o),
        o != parent,
        forall|k: int| 0 <= k < fs.len() ==> is_tile(d3, #[trigger] fs[k] + 0x1000),
        is_tile(d3, parent + 0x1000),
        parent + 0x1004 + 32 <= parent + 0x1000 + crate::tiling::size_at(d3, parent + 0x1000),
        d4.len() == d3.len(),
        forall|i: int| 0 <= i < d3.len() && outside_headers(fs, i) ==> #[trigger] d4[i] == d3[i],
        d6.len() == d4.len(),
        forall|i: int|
            0 <= i < d4.len() && !(parent + 0x1004 + 28 <= i < parent + 0x1004 + 32) && !(parent
                + 0x1004 + 20 <= i < parent + 0x1004 + 24) ==> #[trigger] d6[i] == d4[i],
    ensures
        cell_kept(d3, d6, o),
{
    let c = o + 0x1000;
    crate::tiling::lemma_tile_bounds(d3, c);
    crate::tiling::lemma_tiles_apart_at(d3, c, parent + 0x1000);
    assert forall|k: int| 0 <= k < fs.len() implies crate::tiling::size_at(d3, c) + c <= #[trigger] fs[k]
        + 0x1000 || fs[k] + 0x1000 + crate::tiling::size_at(d3, fs[k] + 0x1000) <= c by {
        assert(fs[k] != o);
        crate::tiling::lemma_tiles_apart_at(d3, c, fs[k] + 0x1000);
    }
    assert forall|i: int| c <= i < c + crate::tiling::size_at(d3, c) implies #[trigger] d6[i] == d3[i] by {
        assert forall|k: int| 0 <= k < fs.len() implies !(#[trigger] fs[k] + 0x1000 <= i < fs[k] + 0x1004) by {
            crate::tiling::lemma_tile_bounds(d3, fs[k] + 0x1000);
        }
        assert(outside_headers(fs, i));
        assert(d4[i] == d3[i]);
    }
}

} // verus!

verus! {

/// The first steps of a subkey insertion (the security cell's count, then
/// the new key node and the new list allocated) keep the hive tiled and
/// every other allocated cell.
#[verifier::spinoff_prover]
proof fn lemma_insert_early(
    h0: HiveView,
    h1: HiveView,
    h2: HiveView,
    h3: HiveView,
    sk: u32,
    new_off: u32,
    l_off: u32,
)
    requires
        tiled(h0.data, h0.header.hive_bins_size),
        used_tile(h0.data, sk + 0x1000),
        h1.header == h0.header,
        crate::cell::incr_refcount_spec(h0.data, sk) == Ok::<Seq<u8>, RegError>(h1.data),
        tiled(h1.data, h1.header.hive_bins_size) ==> {
            &&& tiled(h2.data, h2.header.hive_bins_size)
            &&& used_tile(h2.data, new_off + 0x1000)
            &&& !used_tile(h1.data, new_off + 0x1000)
            &&& keeps_used(h1.data, h2.data)
        },
        tiled(h2.data, h2.header.hive_bins_size) ==> {
            &&& tiled(h3.data, h3.header.hive_bins_size)
            &&& used_tile(h3.data, l_off + 0x1000)
            &&& !used_tile(h2.data, l_off + 0x1000)
            &&& keeps_used(h2.data, h3.data)
        },
    ensures
        tiled(h1.data, h1.header.hive_bins_size),
        tiled(h2.data, h2.header.hive_bins_size),
        tiled(h3.data, h3.header.hive_bins_size),
        used_tile(h3.data, new_off + 0x1000),
        !used_tile(h0.data, new_off + 0x1000),
        used_tile(h3.data, l_off + 0x1000),
        !used_tile(h0.data, l_off + 0x1000),
        new_off != l_off,
        cell_kept(h2.data, h3.data, new_off),
        used_tile(h2.data, new_off + 0x1000),
        used_tile(h3.data, sk + 0x1000),
        used_tile(h2.data, sk + 0x1000),
        keeps_used(h1.data, h3.data),
        forall|o: u32|
            used_tile(h0.data, o + 0x1000) && o != sk ==> #[trigger] cell_kept(h0.data, h3.data, o)
                && cell_kept(h0.data, h2.data, o) && used_tile(h3.data, o + 0x1000) && used_tile(
                h2.data,
                o + 0x1000,
            ),
{
    let d0 = h0.data;
    let d1 = h1.data;
    let c = sk + 0x1000;
    let (a, b) = crate::hbin::payload_range(d0, sk).unwrap();
    let v = vstd::wrapping::u32_specs::wrapping_add(u32_at(d0, a + 12), 1);
    crate::tiling::lemma_tile_bounds(d0, c);
    crate::bytes::lemma_put_u32(d0, a + 12, v);
    crate::tiling::lemma_write_in_tile(d0, d1, c, a + 12, a + 16);
    assert(tiled(d1, h1.header.hive_bins_size));
    assert(used_tile(d1, c));
    crate::tiling::lemma_keeps_used_trans(d1, h2.data, h3.data);
    lemma_used_kept(h2.data, h3.data, new_off);
    assert forall|o: u32|
        used_tile(d0, o + 0x1000) && o != sk implies #[trigger] cell_kept(d0, h3.data, o) && cell_kept(
        d0,
        h2.data,
        o,
    ) && used_tile(h3.data, o + 0x1000) && used_tile(h2.data, o + 0x1000) by {
        let x = o + 0x1000;
        assert(is_tile(d0, x));
        assert(used_tile(d1, x));
        assert(cell_kept(d0, d1, o)) by {
            crate::tiling::lemma_tile_bounds(d0, x);
        }
        lemma_used_kept(d1, h2.data, o);
        lemma_used_kept(d1, h3.data, o);
        lemma_cell_kept_trans(d0, d1, h2.data, o);
        lemma_cell_kept_trans(d0, d1, h3.data, o);
    }
    if used_tile(d0, new_off + 0x1000) {
        assert(used_tile(d1, new_off + 0x1000));
    }
    if used_tile(d0, l_off + 0x1000) {
        assert(used_tile(d1, l_off + 0x1000));
        assert(used_tile(h2.data, l_off + 0x1000));
    }
    assert(new_off != l_off);
    assert(used_tile(h2.data, c));
}

} // verus!

verus! {

/// Before an insertion, the parent's entries are those read after its
/// first allocations.
proof fn lemma_insert_old_entries(
    h0: HiveView,
    d2: Seq<u8>,
    parent: u32,
    pk: KeyNodeView,
    name: Seq<char>,
    es: Seq<(Seq<char>, u32)>,
)
    requires
        used_tile(h0.data, parent + 0x1000),
        find_child_spec(h0.data, parent, name) == Ok::<Option<u32>, RegError>(None),
        key_node_at(h0.data, parent) == Ok::<KeyNodeView, RegError>(pk),
        insert_cells_apart(h0.data, parent, pk),
        forall|o: u32|
            used_tile(h0.data, o + 0x1000) && o != pk.security_offset ==> #[trigger] cell_kept(
                h0.data,
                d2,
                o,
            ),
        child_entries_spec(d2, parent) == Ok::<Seq<(Seq<char>, u32)>, RegError>(es),
    ensures
        child_entries_spec(h0.data, parent) == Ok::<Seq<(Seq<char>, u32)>, RegError>(es),
{
    lemma_insert_entries(h0, d2, parent, pk, name, es);
    let offs = subkey_list(h0.data, pk.subkey_list_offset)->Ok_0;
    assert forall|k: int| 0 <= k < offs.len() implies #[trigger] key_node_at(h0.data, offs[k]) is Ok
        && key_node_at(h0.data, offs[k])->Ok_0.name == es[k].0 && es[k].1 == offs[k] by {
        assert(es[k] == (key_node_at(h0.data, offs[k])->Ok_0.name, offs[k]));
    }
    lemma_entries_match(h0.data, offs, es);
}

/// The subkey entries read once the new key node is allocated are the old
/// subkeys, each read with its name, none named `name`.
#[verifier::spinoff_prover]
proof fn lemma_insert_entries(
    h0: HiveView,
    d2: Seq<u8>,
    parent: u32,
    pk: KeyNodeView,
    name: Seq<char>,
    es: Seq<(Seq<char>, u32)>,
)
    requires
        used_tile(h0.data, parent + 0x1000),
        find_child_spec(h0.data, parent, name) == Ok::<Option<u32>, RegError>(None),
        key_node_at(h0.data, parent) == Ok::<KeyNodeView, RegError>(pk),
        insert_cells_apart(h0.data, parent, pk),
        forall|o: u32|
            used_tile(h0.data, o + 0x1000) && o != pk.security_offset ==> #[trigger] cell_kept(
                h0.data,
                d2,
                o,
            ),
        child_entries_spec(d2, parent) == Ok::<Seq<(Seq<char>, u32)>, RegError>(es),
    ensures
        ({
            let offs = subkey_list(h0.data, pk.subkey_list_offset)->Ok_0;
            &&& es.len() == offs.len()
            &&& forall|j: int|
                0 <= j < es.len() ==> #[trigger] es[j] == (key_node_at(h0.data, offs[j])->Ok_0.name, offs[j])
                    && name_order(es[j].0, name) != 0 && key_node_at(h0.data, offs[j]) is Ok
        }),
{
    let d0 = h0.data;
    let sk = pk.security_offset;
    let offs = subkey_list(d0, pk.subkey_list_offset)->Ok_0;
    assert(cell_kept(d0, d2, parent));
    lemma_cell_kept_reads(d0, d2, parent);
    let ok = alive_but(d0, sk);
    assert forall|o: u32| #[trigger] ok(o) implies crate::cell::cell_payload_spec(d2, o)
        == crate::cell::cell_payload_spec(d0, o) by {
        assert(cell_kept(d0, d2, o));
        lemma_cell_kept_reads(d0, d2, o);
    }
    lemma_list_frame(d0, d2, pk.subkey_list_offset, crate::cell::ri_depth(), ok);
    assert forall|k: int| 0 <= k < offs.len() implies #[trigger] key_node_at(d2, offs[k]) == key_node_at(
        d0,
        offs[k],
    ) by {
        assert(used_tile(d0, offs[k] + 0x1000));
        assert(cell_kept(d0, d2, offs[k]));
        lemma_cell_kept_reads(d0, d2, offs[k]);
    }
    lemma_entries_frame(d0, d2, offs);
    lemma_first_match_none(d0, offs, name);
    lemma_entries_read(d0, offs);
}

} // verus!

verus! {

/// The key node offsets of (name, offset) entries.
pub open spec fn entry_offsets(s: Seq<(Seq<char>, u32)>) -> Seq<u32> {
    s.map_values(|x: (Seq<char>, u32)| x.1)
}

/// A cell of the tiled `d3` apart from the freed lists `fs` keeps its bytes
/// through the frees.
proof fn lemma_free_keeps(d3: Seq<u8>, d4: Seq<u8>, fs: Seq<u32>, o: u32)
    requires
        crate::tiling::bins_tile(d3, 0x1000, d3.len() as int),
        is_tile(d3, o + 0x1000),
        !fs.contains(o),
        forall|k: int| 0 <= k < fs.len() ==> is_tile(d3, #[trigger] fs[k] + 0x1000),
        d4.len() == d3.len(),
        forall|i: int| 0 <= i < d3.len() && outside_headers(fs, i) ==> #[trigger] d4[i] == d3[i],
    ensures
        cell_kept(d3, d4, o),
{
    let c = o + 0x1000;
    crate::tiling::lemma_tile_bounds(d3, c);
    assert forall|i: int| c <= i < c + crate::tiling::size_at(d3, c) implies #[trigger] d4[i] == d3[i] by {
        assert forall|k: int| 0 <= k < fs.len() implies !(#[trigger] fs[k] + 0x1000 <= i < fs[k] + 0x1004) by {
            assert(fs[k] != o);
            crate::tiling::lemma_tiles_apart_at(d3, c, fs[k] + 0x1000);
            crate::tiling::lemma_tile_bounds(d3, fs[k] + 0x1000);
        }
        assert(outside_headers(fs, i));
    }
}

/// The last steps of a subkey insertion (the old lists freed, the parent's
/// list and count written): the parent reads with its new list, the new
/// list reads as the sorted entries' offsets, and every other cell
/// allocated before them keeps its bytes.
#[verifier::spinoff_prover]
#[verifier::rlimit(50)]
proof fn lemma_insert_late(
    h3: HiveView,
    h4: HiveView,
    h5: HiveView,
    h6: HiveView,
    parent: u32,
    pk: KeyNodeView,
    fs: Seq<u32>,
    l_off: u32,
    lp: Seq<u8>,
    kind: crate::cell::LeafKind,
    ss: Seq<(Seq<char>, u32)>,
    cnt: u32,
)
    requires
        tiled(h3.data, h3.header.hive_bins_size),
        h3.data.len() <= crate::hbin::max_hive_len(),
        used_tile(h3.data, parent + 0x1000),
        key_node_at(h3.data, parent) == Ok::<KeyNodeView, RegError>(pk),
        !fs.contains(parent),
        forall|k: int| 0 <= k < fs.len() ==> used_tile(h3.data, #[trigger] fs[k] + 0x1000),
        used_tile(h3.data, l_off + 0x1000),
        l_off != parent,
        !fs.contains(l_off),
        0x1020 <= l_off + 0x1000,
        crate::hbin::payload_range(h3.data, l_off) matches Ok((x, y)) && y - x >= lp.len()
            && h3.data.subrange(x, x + lp.len()) == lp,
        crate::cell::is_leaf_list(lp, kind, ss),
        ss.len() <= 0xFFFF,
        h4.data.len() == h3.data.len(),
        forall|i: int| 0 <= i < h3.data.len() && outside_headers(fs, i) ==> #[trigger] h4.data[i] == h3.data[i],
        crate::cell::set_field_spec(h4.data, parent, 28, l_off) == Ok::<Seq<u8>, RegError>(h5.data),
        crate::cell::set_field_spec(h5.data, parent, 20, cnt) == Ok::<Seq<u8>, RegError>(h6.data),
    ensures
        key_node_at(h6.data, parent) == Ok::<KeyNodeView, RegError>(
            KeyNodeView { subkey_list_offset: l_off, subkey_count: cnt, ..pk },
        ),
        subkey_list(h6.data, l_off) == Ok::<Seq<u32>, RegError>(entry_offsets(ss)),
        l_off != 0,
        l_off != FREE,
        crate::cell::cell_payload_spec(h6.data, l_off) is Ok,
        !crate::cell::has_magic(crate::cell::cell_payload_spec(h6.data, l_off)->Ok_0, 0x72, 0x69),
        forall|o: u32|
            used_tile(h3.data, o + 0x1000) && o != parent && !fs.contains(o) ==> #[trigger] cell_kept(
                h3.data,
                h6.data,
                o,
            ),
{
    let d3 = h3.data;
    let d4 = h4.data;
    let d5 = h5.data;
    let d6 = h6.data;
    let pc = parent + 0x1000;
    let a = parent + 0x1004;
    assert forall|k: int| 0 <= k < fs.len() implies is_tile(d3, #[trigger] fs[k] + 0x1000) by {
        assert(used_tile(d3, fs[k] + 0x1000));
    }
    lemma_free_keeps(d3, d4, fs, parent);
    lemma_key_node_room(d3, parent);
    crate::tiling::lemma_tile_bounds(d3, pc);
    let sz = crate::tiling::size_at(d3, pc);
    assert(d4[pc] == d3[pc] && d4[pc + 1] == d3[pc + 1] && d4[pc + 2] == d3[pc + 2] && d4[pc + 3]
        == d3[pc + 3]);
    assert(crate::hbin::payload_range(d4, parent) == Ok::<(int, int), RegError>((a, pc + sz)));
    assert(d5 == crate::bytes::put_u32(d4, a + 28, l_off));
    crate::bytes::lemma_put_u32(d4, a + 28, l_off);
    assert(d5[pc] == d4[pc] && d5[pc + 1] == d4[pc + 1] && d5[pc + 2] == d4[pc + 2] && d5[pc + 3]
        == d4[pc + 3]);
    assert(crate::hbin::payload_range(d5, parent) == Ok::<(int, int), RegError>((a, pc + sz)));
    assert(d6 == crate::bytes::put_u32(d5, a + 20, cnt));
    crate::bytes::lemma_put_u32(d5, a + 20, cnt);
    lemma_key_subkey_fields(d3, d4, d6, parent, pk, l_off, cnt);
    assert forall|i: int|
        0 <= i < d4.len() && !(a + 28 <= i < a + 32) && !(a + 20 <= i < a + 24) implies #[trigger] d6[i]
        == d4[i] by {
        assert(d5[i] == d4[i]);
    }
    assert forall|o: u32|
        used_tile(d3, o + 0x1000) && o != parent && !fs.contains(o) implies #[trigger] cell_kept(d3, d6, o) by {
        lemma_insert_tail_keep(d3, d4, d6, fs, parent, o);
    }
    assert(cell_kept(d3, d6, l_off));
    lemma_cell_kept_reads(d3, d6, l_off);
    let (x, y) = crate::hbin::payload_range(d3, l_off).unwrap();
    let q = d3.subrange(x, y);
    assert(q.subrange(0, lp.len() as int) =~= d3.subrange(x, x + lp.len()));
    assert(l_off != FREE);
    crate::cell::lemma_leaf_list_read(d6, l_off, lp, kind, ss, crate::cell::ri_depth());
    assert(ss.map_values(|e: (Seq<char>, u32)| e.1) =~= entry_offsets(ss));
    assert(q[0] == lp[0]) by {
        assert(q.subrange(0, lp.len() as int)[0] == q[0]);
    }
}

} // verus!

verus! {

/// The new key node, once allocated, reads back with its name.
proof fn lemma_new_key_node(d: Seq<u8>, off: u32, name: Seq<char>, parent: u32, sk: u32)
    requires
        crate::hbin::payload_range(d, off) matches Ok((x, y)) && y - x >= crate::cell::key_node_bytes(
            name,
            parent,
            sk,
        ).len() && d.subrange(x, x + crate::cell::key_node_bytes(name, parent, sk).len())
            == crate::cell::key_node_bytes(name, parent, sk),
        crate::cell::name_to_bytes(name, vstd::utf8::is_ascii_chars(name)).len() <= 0xFFFF,
    ensures
        key_node_at(d, off) == Ok::<KeyNodeView, RegError>(
            KeyNodeView {
                name,
                subkey_count: 0,
                subkey_list_offset: FREE,
                value_count: 0,
                value_list_offset: FREE,
                security_offset: sk,
            },
        ),
{
    let (x, y) = crate::hbin::payload_range(d, off).unwrap();
    let k = crate::cell::key_node_bytes(name, parent, sk);
    let p = d.subrange(x, y);
    assert(p.subrange(0, k.len() as int) =~= d.subrange(x, x + k.len()));
    crate::cell::lemma_key_node_parse(name, parent, sk, p, off);
    crate::cell::lemma_key_node_at(d, off);
}

/// The entries of the new subkey list read, in the final state, with
/// their names, and only the new key node is named `name`.
#[verifier::spinoff_prover]
#[verifier::rlimit(50)]
proof fn lemma_insert_names(
    d0: Seq<u8>,
    d3: Seq<u8>,
    d6: Seq<u8>,
    parent: u32,
    pk: KeyNodeView,
    name: Seq<char>,
    new_off: u32,
    es: Seq<(Seq<char>, u32)>,
    ss: Seq<(Seq<char>, u32)>,
    offs: Seq<u32>,
    fs: Seq<u32>,
)
    requires
        es.len() == offs.len(),
        forall|j: int|
            0 <= j < es.len() ==> #[trigger] es[j] == (key_node_at(d0, offs[j])->Ok_0.name, offs[j])
                && name_order(es[j].0, name) != 0 && key_node_at(d0, offs[j]) is Ok,
        forall|k: int|
            0 <= k < offs.len() ==> used_tile(d0, #[trigger] offs[k] + 0x1000) && offs[k] != parent
                && offs[k] != pk.security_offset && !fs.contains(offs[k]),
        forall|o: u32|
            used_tile(d0, o + 0x1000) && o != pk.security_offset ==> #[trigger] cell_kept(d0, d3, o)
                && used_tile(d3, o + 0x1000),
        forall|o: u32|
            used_tile(d3, o + 0x1000) && o != parent && !fs.contains(o) ==> #[trigger] cell_kept(d3, d6, o),
        !used_tile(d0, new_off + 0x1000),
        key_node_at(d6, new_off) is Ok,
        key_node_at(d6, new_off)->Ok_0.name == name,
        name_order(name, name) == 0,
        ss.to_multiset() == es.push((name, new_off)).to_multiset(),
        fs == lists_freed(d0, pk.subkey_list_offset),
    ensures
        forall|k: int|
            0 <= k < entry_offsets(ss).len() ==> #[trigger] key_node_at(
                d6,
                entry_offsets(ss)[k],
            ) is Ok && key_node_at(d6, entry_offsets(ss)[k])->Ok_0.name
                == ss[k].0 && ss[k].1 == entry_offsets(ss)[k] && (name_order(
                key_node_at(d6, entry_offsets(ss)[k])->Ok_0.name,
                name,
            ) == 0 <==> entry_offsets(ss)[k] == new_off),
        forall|k: int|
            0 <= k < entry_offsets(ss).len() ==> #[trigger] entry_offsets(ss)[k] == new_off || insert_keeps(
                d0,
                parent,
                pk,
                entry_offsets(ss)[k],
            ),
{
    let e = (name, new_off);
    let ks = entry_offsets(ss);
    assert forall|k: int| 0 <= k < ks.len() implies #[trigger] key_node_at(d6, ks[k]) is Ok
        && key_node_at(d6, ks[k])->Ok_0.name == ss[k].0 && ss[k].1 == ks[k] && (name_order(
        key_node_at(d6, ks[k])->Ok_0.name,
        name,
    ) == 0 <==> ks[k] == new_off) by {
        vstd::seq_lib::to_multiset_contains(ss, ss[k]);
        vstd::seq_lib::to_multiset_contains(es.push(e), ss[k]);
        assert(ss.contains(ss[k]));
        assert(es.push(e).contains(ss[k]));
        assert(ks[k] == ss[k].1);
        if ss[k] != e {
            let j = choose|j: int| 0 <= j < es.push(e).len() && es.push(e)[j] == ss[k];
            assert(j < es.len());
            assert(es[j] == ss[k]);
            let o = offs[j];
            assert(o == ks[k]);
            assert(used_tile(d0, o + 0x1000) && o != parent && o != pk.security_offset && !fs.contains(o));
            assert(cell_kept(d0, d3, o));
            assert(used_tile(d3, o + 0x1000));
            lemma_cell_kept_reads(d0, d3, o);
            assert(cell_kept(d3, d6, o));
            lemma_cell_kept_reads(d3, d6, o);
            assert(o != new_off);
            assert(key_node_at(d6, o) == key_node_at(d0, o));
            assert(key_node_at(d6, o) is Ok);
            assert(name_order(key_node_at(d6, o)->Ok_0.name, name) != 0);
            assert(insert_keeps(d0, parent, pk, o));
        } else {
            assert(ks[k] == new_off);
        }
    }
    assert forall|k: int| 0 <= k < ks.len() implies #[trigger] ks[k] == new_off || insert_keeps(
        d0,
        parent,
        pk,
        ks[k],
    ) by {
        vstd::seq_lib::to_multiset_contains(ss, ss[k]);
        vstd::seq_lib::to_multiset_contains(es.push(e), ss[k]);
        assert(ss.contains(ss[k]));
        assert(es.push(e).contains(ss[k]));
        assert(ks[k] == ss[k].1);
        if ss[k] != e {
            let j = choose|j: int| 0 <= j < es.push(e).len() && es.push(e)[j] == ss[k];
            assert(j < es.len());
            assert(es[j] == ss[k]);
            assert(offs[j] == ks[k]);
            assert(used_tile(d0, offs[j] + 0x1000));
        }
    }
}

/// What a subkey insertion leaves of the parent, its subkeys and the
/// other cells, from what each of its steps does.
#[verifier::spinoff_prover]
#[verifier::rlimit(100)]
proof fn lemma_insert_core(
    h0: HiveView,
    h1: HiveView,
    h2: HiveView,
    h3: HiveView,
    h4: HiveView,
    h5: HiveView,
    h6: HiveView,
    parent: u32,
    name: Seq<char>,
    new_off: u32,
    l_off: u32,
    es: Seq<(Seq<char>, u32)>,
    ss: Seq<(Seq<char>, u32)>,
    lp: Seq<u8>,
    kind: crate::cell::LeafKind,
    cnt: u32,
)
    requires
        insert_ready(h0, parent, name),
        h1.header == h0.header,
        crate::cell::incr_refcount_spec(h0.data, key_node_at(h0.data, parent)->Ok_0.security_offset)
            == Ok::<Seq<u8>, RegError>(h1.data),
        tiled(h1.data, h1.header.hive_bins_size) ==> {
            &&& tiled(h2.data, h2.header.hive_bins_size)
            &&& used_tile(h2.data, new_off + 0x1000)
            &&& !used_tile(h1.data, new_off + 0x1000)
            &&& keeps_used(h1.data, h2.data)
        },
        crate::hbin::payload_range(h2.data, new_off) matches Ok((x, y)) && y - x
            >= crate::cell::key_node_bytes(name, parent, key_node_at(h0.data, parent)->Ok_0.security_offset).len()
            && h2.data.subrange(
            x,
            x + crate::cell::key_node_bytes(name, parent, key_node_at(h0.data, parent)->Ok_0.security_offset).len(),
        ) == crate::cell::key_node_bytes(name, parent, key_node_at(h0.data, parent)->Ok_0.security_offset),
        child_entries_spec(h2.data, parent) == Ok::<Seq<(Seq<char>, u32)>, RegError>(es),
        sorted_by_name(ss),
        ss.to_multiset() == es.push((name, new_off)).to_multiset(),
        crate::cell::is_leaf_list(lp, kind, ss),
        tiled(h2.data, h2.header.hive_bins_size) ==> {
            &&& tiled(h3.data, h3.header.hive_bins_size)
            &&& used_tile(h3.data, l_off + 0x1000)
            &&& !used_tile(h2.data, l_off + 0x1000)
            &&& keeps_used(h2.data, h3.data)
        },
        0x1020 <= l_off + 0x1000,
        crate::hbin::payload_range(h3.data, l_off) matches Ok((x, y)) && y - x >= lp.len()
            && h3.data.subrange(x, x + lp.len()) == lp,
        h3.data.len() <= crate::hbin::max_hive_len(),
        h4.data.len() == h3.data.len(),
        forall|i: int|
            0 <= i < h3.data.len() && outside_headers(
                lists_freed(h3.data, key_node_at(h0.data, parent)->Ok_0.subkey_list_offset),
                i,
            ) ==> #[trigger] h4.data[i] == h3.data[i],
        crate::cell::set_field_spec(h4.data, parent, 28, l_off) == Ok::<Seq<u8>, RegError>(h5.data),
        crate::cell::set_field_spec(h5.data, parent, 20, cnt) == Ok::<Seq<u8>, RegError>(h6.data),
    ensures
        insert_core_done(h0, h6, parent, name, new_off),
        lists_freed(h3.data, key_node_at(h0.data, parent)->Ok_0.subkey_list_offset) == lists_freed(
            h0.data,
            key_node_at(h0.data, parent)->Ok_0.subkey_list_offset,
        ),
        key_node_at(h6.data, parent) == Ok::<KeyNodeView, RegError>(
            KeyNodeView {
                subkey_list_offset: l_off,
                subkey_count: cnt,
                ..key_node_at(h0.data, parent)->Ok_0
            },
        ),
        subkey_list(h6.data, l_off) == Ok::<Seq<u32>, RegError>(entry_offsets(ss)),
        l_off != 0,
        l_off != FREE,
        crate::cell::cell_payload_spec(h6.data, l_off) is Ok,
        !crate::cell::has_magic(crate::cell::cell_payload_spec(h6.data, l_off)->Ok_0, 0x72, 0x69),
        forall|k: int|
            0 <= k < entry_offsets(ss).len() ==> #[trigger] entry_offsets(ss)[k] == new_off || insert_keeps(
                h0.data,
                parent,
                key_node_at(h0.data, parent)->Ok_0,
                entry_offsets(ss)[k],
            ),
        ss.len() <= 0xFFFF,
        child_entries_spec(h0.data, parent) == Ok::<Seq<(Seq<char>, u32)>, RegError>(es),
        child_entries_spec(h6.data, parent) == Ok::<Seq<(Seq<char>, u32)>, RegError>(ss),
{
    reveal(insert_ready);
    reveal(insert_core_done);
    let d0 = h0.data;
    let pk = key_node_at(d0, parent)->Ok_0;
    let sk = pk.security_offset;
    let list = pk.subkey_list_offset;
    let fs = lists_freed(d0, list);
    let offs = subkey_list(d0, list)->Ok_0;
    let e = (name, new_off);
    lemma_insert_early(h0, h1, h2, h3, sk, new_off, l_off);
    // The freed lists are those of the old list, which is kept until then.
    if list != FREE && list != 0 {
        assert(fs.last() == list);
        assert(fs[fs.len() - 1] == list);
        assert(used_tile(d0, list + 0x1000) && list != sk);
        assert(cell_kept(d0, h3.data, list));
        lemma_cell_kept_reads(d0, h3.data, list);
    }
    assert(lists_freed(h3.data, list) == fs);
    assert(cell_kept(d0, h3.data, parent));
    lemma_cell_kept_reads(d0, h3.data, parent);
    assert forall|k: int| 0 <= k < fs.len() implies used_tile(h3.data, #[trigger] fs[k] + 0x1000) && fs[k]
        != new_off && fs[k] != l_off by {
        assert(cell_kept(d0, h3.data, fs[k]));
    }
    assert(!fs.contains(new_off));
    assert(!fs.contains(l_off));
    assert(!fs.contains(parent));
    assert(new_off != parent && l_off != parent) by {
        assert(cell_kept(d0, h3.data, parent));
    }
    let ghost ks = entry_offsets(ss);
    // The entries read before the new list: the old subkeys.
    assert forall|o: u32| used_tile(d0, o + 0x1000) && o != sk implies #[trigger] cell_kept(d0, h2.data, o) by {
        assert(cell_kept(d0, h3.data, o));
    }
    lemma_insert_entries(h0, h2.data, parent, pk, name, es);
    lemma_insert_old_entries(h0, h2.data, parent, pk, name, es);
    assert(ss.len() == es.len() + 1) by {
        ss.to_multiset_ensures();
        es.push(e).to_multiset_ensures();
    }
    lemma_insert_late(h3, h4, h5, h6, parent, pk, fs, l_off, lp, kind, ss, cnt);
    // The new key node.
    lemma_new_key_node(h2.data, new_off, name, parent, sk);
    lemma_cell_kept_reads(h2.data, h3.data, new_off);
    assert(cell_kept(h3.data, h6.data, new_off));
    lemma_cell_kept_reads(h3.data, h6.data, new_off);
    crate::name::lemma_name_equality(name, name);
    // Every entry of the new list reads with its name; only the new one is
    // named `name`.
    lemma_insert_names(d0, h3.data, h6.data, parent, pk, name, new_off, es, ss, offs, fs);
    lemma_entries_match(h6.data, ks, ss);
    vstd::seq_lib::to_multiset_contains(es.push(e), e);
    vstd::seq_lib::to_multiset_contains(ss, e);
    assert(es.push(e).contains(e)) by {
        assert(es.push(e)[es.len() as int] == e);
    }
    let k0 = choose|k: int| 0 <= k < ss.len() && ss[k] == e;
    assert(ks[k0] == new_off);
    lemma_first_match_unique(h6.data, ks, name, new_off);
    // The cells the insertion leaves alone.
    assert forall|o: u32| insert_keeps(d0, parent, pk, o) implies #[trigger] cell_kept(d0, h6.data, o) by {
        assert(cell_kept(d0, h3.data, o));
        assert(cell_kept(h3.data, h6.data, o));
        lemma_cell_kept_trans(d0, h3.data, h6.data, o);
    }
}

} // verus!

verus! {

/// `d` and `d2` read the key node at `o` under the same name (or with the
/// same error).
pub open spec fn name_same(d: Seq<u8>, d2: Seq<u8>, o: u32) -> bool {
    match (key_node_at(d, o), key_node_at(d2, o)) {
        (Err(e1), Err(e2)) => e1 == e2,
        (Ok(a), Ok(b)) => a.name == b.name,
        _ => false,
    }
}

/// The cells that following the path components `parts` from the key node
/// at `cur` reads: the key nodes it walks through satisfy `okk`, those it
/// compares by name `okn`, and the subkey lists `okl`.
pub open spec fn walk_cells_ok(
    d: Seq<u8>,
    cur: u32,
    parts: Seq<Seq<char>>,
    okk: spec_fn(u32) -> bool,
    okn: spec_fn(u32) -> bool,
    okl: spec_fn(u32) -> bool,
) -> bool
    decreases parts.len(),
{
    if parts.len() == 0 {
        true
    } else {
        okk(cur) && match key_node_at(d, cur) {
            Err(_) => true,
            Ok(nk) => list_cells_ok(d, nk.subkey_list_offset, crate::cell::ri_depth(), okl) && match subkey_list(
                d,
                nk.subkey_list_offset,
            ) {
                Err(_) => true,
                Ok(offs) => scan_cells_ok(d, offs, parts[0], okn) && match first_match(d, offs, parts[0]) {
                    Ok(Some(o)) => walk_cells_ok(d, o, parts.skip(1), okk, okn, okl),
                    _ => true,
                },
            },
        }
    }
}

/// A subkey list reads the same where its cells do, and its cells satisfy
/// `ok2` in `d2`.
proof fn lemma_list_move(d: Seq<u8>, d2: Seq<u8>, off: u32, fuel: nat, ok: spec_fn(u32) -> bool, ok2: spec_fn(u32) -> bool)
    requires
        list_cells_ok(d, off, fuel, ok),
        forall|o: u32| #[trigger] ok(o) ==> crate::cell::cell_payload_spec(d2, o) == crate::cell::cell_payload_spec(d, o)
            && ok2(o),
    ensures
        subkeys_fuel(d2, off, fuel) == subkeys_fuel(d, off, fuel),
        list_cells_ok(d2, off, fuel, ok2),
    decreases fuel, 0nat, 0nat,
{
    if off != 0 && off != FREE {
        assert(ok(off));
        match crate::cell::cell_payload_spec(d, off) {
            Err(_) => {},
            Ok(p) => {
                if p.len() >= 4 && crate::cell::has_magic(p, 0x72, 0x69) && fuel > 0 {
                    lemma_ri_move(
                        d,
                        d2,
                        crate::cell::offsets_in(p, 4, 4, crate::bytes::u16_at(p, 2) as nat),
                        (fuel - 1) as nat,
                        ok,
                        ok2,
                    );
                }
            },
        }
    }
}

/// The concatenated lists read the same where their cells do, and their
/// cells satisfy `ok2` in `d2`.
proof fn lemma_ri_move(d: Seq<u8>, d2: Seq<u8>, children: Seq<u32>, fuel: nat, ok: spec_fn(u32) -> bool, ok2: spec_fn(u32) -> bool)
    requires
        ri_cells_ok(d, children, fuel, ok),
        forall|o: u32| #[trigger] ok(o) ==> crate::cell::cell_payload_spec(d2, o) == crate::cell::cell_payload_spec(d, o)
            && ok2(o),
    ensures
        ri_concat(d2, children, fuel) == ri_concat(d, children, fuel),
        ri_cells_ok(d2, children, fuel, ok2),
    decreases fuel, 1nat, children.len(),
{
    if children.len() > 0 {
        lemma_list_move(d, d2, children[0], fuel, ok, ok2);
        lemma_ri_move(d, d2, children.skip(1), fuel, ok, ok2);
    }
}

/// A scan by name reads the same where the names of the key nodes it reads
/// do, and those key nodes satisfy `ok2` in `d2`.
proof fn lemma_scan_move(d: Seq<u8>, d2: Seq<u8>, offs: Seq<u32>, name: Seq<char>, ok: spec_fn(u32) -> bool, ok2: spec_fn(u32) -> bool)
    requires
        scan_cells_ok(d, offs, name, ok),
        forall|o: u32| #[trigger] ok(o) ==> name_same(d, d2, o) && ok2(o),
    ensures
        first_match(d2, offs, name) == first_match(d, offs, name),
        scan_cells_ok(d2, offs, name, ok2),
    decreases offs.len(),
{
    if offs.len() > 0 {
        assert(ok(offs[0]));
        assert(name_same(d, d2, offs[0]));
        match key_node_at(d, offs[0]) {
            Err(_) => {},
            Ok(c) => {
                if name_order(c.name, name) != 0 {
                    lemma_scan_move(d, d2, offs.skip(1), name, ok, ok2);
                }
            },
        }
    }
}

/// Following a path reads the same where the cells it reads do, and those
/// cells satisfy the new conditions in `d2`.
proof fn lemma_walk_move(
    d: Seq<u8>,
    d2: Seq<u8>,
    cur: u32,
    parts: Seq<Seq<char>>,
    okk: spec_fn(u32) -> bool,
    okn: spec_fn(u32) -> bool,
    okl: spec_fn(u32) -> bool,
    okk2: spec_fn(u32) -> bool,
    okn2: spec_fn(u32) -> bool,
    okl2: spec_fn(u32) -> bool,
)
    requires
        walk_cells_ok(d, cur, parts, okk, okn, okl),
        forall|o: u32| #[trigger] okk(o) ==> key_same(d, d2, o) && okk2(o),
        forall|o: u32| #[trigger] okn(o) ==> name_same(d, d2, o) && okn2(o),
        forall|o: u32| #[trigger] okl(o) ==> crate::cell::cell_payload_spec(d2, o) == crate::cell::cell_payload_spec(d, o)
            && okl2(o),
    ensures
        resolve_from(d2, cur, parts) == resolve_from(d, cur, parts),
        walk_cells_ok(d2, cur, parts, okk2, okn2, okl2),
    decreases parts.len(),
{
    if parts.len() > 0 {
        assert(okk(cur));
        assert(key_same(d, d2, cur));
        match key_node_at(d, cur) {
            Err(_) => {},
            Ok(nk) => {
                lemma_list_move(d, d2, nk.subkey_list_offset, crate::cell::ri_depth(), okl, okl2);
                match subkey_list(d, nk.subkey_list_offset) {
                    Err(_) => {},
                    Ok(offs) => {
                        lemma_scan_move(d, d2, offs, parts[0], okn, okn2);
                        match first_match(d, offs, parts[0]) {
                            Ok(Some(o)) => {
                                lemma_walk_move(d, d2, o, parts.skip(1), okk, okn, okl, okk2, okn2, okl2);
                            },
                            _ => {},
                        }
                    },
                }
            },
        }
    }
}

/// Following one more component: what the walk to the key it names was,
/// then one step.
proof fn lemma_resolve_push(d: Seq<u8>, cur: u32, parts: Seq<Seq<char>>, x: Seq<char>)
    ensures
        resolve_from(d, cur, parts.push(x)) == match resolve_from(d, cur, parts) {
            Lookup::Found(c) => match find_child_spec(d, c, x) {
                Err(e) => Lookup::Fails(e),
                Ok(None) => Lookup::NoKey,
                Ok(Some(o)) => Lookup::Found(o),
            },
            other => other,
        },
    decreases parts.len(),
{
    if parts.len() == 0 {
        assert(parts.push(x).skip(1) =~= Seq::<Seq<char>>::empty());
        assert(parts.push(x)[0] == x);
        match find_child_spec(d, cur, x) {
            Ok(Some(o)) => {
                assert(resolve_from(d, o, Seq::<Seq<char>>::empty()) == Lookup::<u32>::Found(o));
            },
            _ => {},
        }
    } else {
        assert(parts.push(x).skip(1) =~= parts.skip(1).push(x));
        assert(parts.push(x)[0] == parts[0]);
        match find_child_spec(d, cur, parts[0]) {
            Ok(Some(o)) => {
                lemma_resolve_push(d, o, parts.skip(1), x);
            },
            _ => {},
        }
    }
}

/// The cells read following one more component: those of the walk, then
/// those of the last step.
proof fn lemma_walk_push(
    d: Seq<u8>,
    cur: u32,
    parts: Seq<Seq<char>>,
    x: Seq<char>,
    okk: spec_fn(u32) -> bool,
    okn: spec_fn(u32) -> bool,
    okl: spec_fn(u32) -> bool,
    c: u32,
)
    requires
        walk_cells_ok(d, cur, parts, okk, okn, okl),
        resolve_from(d, cur, parts) == Lookup::<u32>::Found(c),
        walk_cells_ok(d, c, seq![x], okk, okn, okl),
    ensures
        walk_cells_ok(d, cur, parts.push(x), okk, okn, okl),
    decreases parts.len(),
{
    if parts.len() == 0 {
        assert(parts.push(x) =~= seq![x]);
    } else {
        assert(parts.push(x).skip(1) =~= parts.skip(1).push(x));
        assert(parts.push(x)[0] == parts[0]);
        match key_node_at(d, cur) {
            Err(_) => {},
            Ok(nk) => {
                match subkey_list(d, nk.subkey_list_offset) {
                    Err(_) => {},
                    Ok(offs) => {
                        match first_match(d, offs, parts[0]) {
                            Ok(Some(o)) => {
                                lemma_walk_push(d, o, parts.skip(1), x, okk, okn, okl, c);
                            },
                            _ => {},
                        }
                    },
                }
            },
        }
    }
}

} // verus!

verus! {

/// The two field writes in the parent keep a tiled hive tiled and its
/// allocated cells allocated.
proof fn lemma_insert_tiles(
    h3: HiveView,
    h4: HiveView,
    h5: HiveView,
    h6: HiveView,
    parent: u32,
    fs: Seq<u32>,
    l_off: u32,
    cnt: u32,
)
    requires
        tiled(h3.data, h3.header.hive_bins_size),
        frees_keep_tiles(h3, h4, fs),
        h4.data.len() == h3.data.len(),
        used_tile(h3.data, parent + 0x1000),
        !fs.contains(parent),
        key_node_at(h3.data, parent) is Ok,
        h5.header == h4.header,
        h6.header == h5.header,
        crate::cell::set_field_spec(h4.data, parent, 28, l_off) == Ok::<Seq<u8>, RegError>(h5.data),
        crate::cell::set_field_spec(h5.data, parent, 20, cnt) == Ok::<Seq<u8>, RegError>(h6.data),
    ensures
        tiled(h6.data, h6.header.hive_bins_size),
        h6.data.len() == h3.data.len(),
        forall|o: u32|
            used_tile(h3.data, o + 0x1000) && !fs.contains(o) ==> #[trigger] used_tile(h6.data, o + 0x1000),
{
    let d4 = h4.data;
    let d5 = h5.data;
    let d6 = h6.data;
    let pc = parent + 0x1000;
    let a = parent + 0x1004;
    lemma_key_node_room(h3.data, parent);
    assert(used_tile(d4, pc));
    crate::tiling::lemma_tile_bounds(d4, pc);
    let sz = crate::tiling::size_at(d4, pc);
    assert(sz == crate::tiling::size_at(h3.data, pc));
    assert(crate::hbin::payload_range(d4, parent) == Ok::<(int, int), RegError>((a, pc + sz)));
    crate::bytes::lemma_put_u32(d4, a + 28, l_off);
    crate::tiling::lemma_write_in_tile(d4, d5, pc, a + 28, a + 32);
    assert(d5[pc] == d4[pc] && d5[pc + 1] == d4[pc + 1] && d5[pc + 2] == d4[pc + 2] && d5[pc + 3]
        == d4[pc + 3]);
    assert(crate::hbin::payload_range(d5, parent) == Ok::<(int, int), RegError>((a, pc + sz)));
    crate::bytes::lemma_put_u32(d5, a + 20, cnt);
    crate::tiling::lemma_write_in_tile(d5, d6, pc, a + 20, a + 24);
    assert forall|o: u32| used_tile(h3.data, o + 0x1000) && !fs.contains(o) implies #[trigger] used_tile(
        d6,
        o + 0x1000,
    ) by {
        assert(used_tile(d4, o + 0x1000));
        assert(is_tile(d5, o + 0x1000));
    }
}

/// What a subkey insertion leaves of the tiling and of the new cells.
#[verifier::spinoff_prover]
#[verifier::rlimit(50)]
proof fn lemma_insert_chain(
    h0: HiveView,
    h1: HiveView,
    h2: HiveView,
    h3: HiveView,
    h4: HiveView,
    h5: HiveView,
    h6: HiveView,
    parent: u32,
    name: Seq<char>,
    new_off: u32,
    l_off: u32,
    ss: Seq<(Seq<char>, u32)>,
    kb_len: int,
    lp_len: int,
    cnt: u32,
)
    requires
        insert_ready(h0, parent, name),
        h1.header == h0.header,
        crate::cell::incr_refcount_spec(h0.data, key_node_at(h0.data, parent)->Ok_0.security_offset)
            == Ok::<Seq<u8>, RegError>(h1.data),
        tiled(h1.data, h1.header.hive_bins_size) ==> {
            &&& tiled(h2.data, h2.header.hive_bins_size)
            &&& used_tile(h2.data, new_off + 0x1000)
            &&& !used_tile(h1.data, new_off + 0x1000)
            &&& keeps_used(h1.data, h2.data)
        },
        tiled(h2.data, h2.header.hive_bins_size) ==> {
            &&& tiled(h3.data, h3.header.hive_bins_size)
            &&& used_tile(h3.data, l_off + 0x1000)
            &&& !used_tile(h2.data, l_off + 0x1000)
            &&& keeps_used(h2.data, h3.data)
        },
        lists_freed(h3.data, key_node_at(h0.data, parent)->Ok_0.subkey_list_offset) == lists_freed(
            h0.data,
            key_node_at(h0.data, parent)->Ok_0.subkey_list_offset,
        ),
        h1.data.len() == h0.data.len(),
        kb_len <= 76 + 0xFFFF,
        h2.data.len() <= h1.data.len() + kb_len + 0x2000,
        lp_len <= 4 + 8 * 0xFFFF,
        h3.data.len() <= h2.data.len() + lp_len + 0x2000,
        h4.data.len() == h3.data.len(),
        frees_ready(
            h3,
            lists_freed(h3.data, key_node_at(h0.data, parent)->Ok_0.subkey_list_offset),
        ) ==> frees_keep_tiles(
            h3,
            h4,
            lists_freed(h3.data, key_node_at(h0.data, parent)->Ok_0.subkey_list_offset),
        ),
        h5.header == h4.header,
        h6.header == h5.header,
        crate::cell::set_field_spec(h4.data, parent, 28, l_off) == Ok::<Seq<u8>, RegError>(h5.data),
        crate::cell::set_field_spec(h5.data, parent, 20, cnt) == Ok::<Seq<u8>, RegError>(h6.data),
        key_node_at(h6.data, parent) == Ok::<KeyNodeView, RegError>(
            KeyNodeView {
                subkey_list_offset: l_off,
                subkey_count: cnt,
                ..key_node_at(h0.data, parent)->Ok_0
            },
        ),
        subkey_list(h6.data, l_off) == Ok::<Seq<u32>, RegError>(entry_offsets(ss)),
        l_off != 0,
        l_off != FREE,
        crate::cell::cell_payload_spec(h6.data, l_off) is Ok,
        !crate::cell::has_magic(crate::cell::cell_payload_spec(h6.data, l_off)->Ok_0, 0x72, 0x69),
        forall|k: int|
            0 <= k < entry_offsets(ss).len() ==> #[trigger] entry_offsets(ss)[k] == new_off || insert_keeps(
                h0.data,
                parent,
                key_node_at(h0.data, parent)->Ok_0,
                entry_offsets(ss)[k],
            ),
    ensures
        insert_chain_done(h0, h6, parent, new_off),
{
    reveal(insert_ready);
    reveal(insert_chain_done);
    let d0 = h0.data;
    let pk = key_node_at(d0, parent)->Ok_0;
    let sk = pk.security_offset;
    lemma_insert_early(h0, h1, h2, h3, sk, new_off, l_off);
    let fs = lists_freed(d0, pk.subkey_list_offset);
    assert forall|k: int| 0 <= k < fs.len() implies used_tile(h3.data, #[trigger] fs[k] + 0x1000) by {
        assert(cell_kept(d0, h3.data, fs[k]));
    }
    assert(frees_ready(h3, fs));
    assert(cell_kept(d0, h3.data, parent));
    lemma_cell_kept_reads(d0, h3.data, parent);
    lemma_insert_tiles(h3, h4, h5, h6, parent, fs, l_off, cnt);
    assert(!fs.contains(new_off)) by {
        if fs.contains(new_off) {
            let k = choose|k: int| 0 <= k < fs.len() && fs[k] == new_off;
            assert(used_tile(d0, fs[k] + 0x1000));
        }
    }
    assert(!fs.contains(l_off)) by {
        if fs.contains(l_off) {
            let k = choose|k: int| 0 <= k < fs.len() && fs[k] == l_off;
            assert(used_tile(d0, fs[k] + 0x1000) && fs[k] != sk);
            assert(cell_kept(d0, h3.data, fs[k]));
        }
    }
    assert(!fs.contains(sk)) by {
        if fs.contains(sk) {
            let k = choose|k: int| 0 <= k < fs.len() && fs[k] == sk;
        }
    }
    assert forall|o: u32| insert_keeps(d0, parent, pk, o) implies #[trigger] used_tile(h6.data, o + 0x1000) by {
        assert(cell_kept(d0, h3.data, o));
    }
    assert(parent != l_off) by {
        assert(cell_kept(d0, h3.data, parent));
    }
    assert(new_off != parent) by {
        assert(cell_kept(d0, h3.data, parent));
    }
    assert(new_off != sk);
    assert(l_off != sk);
}

/// The two parts of what a subkey insertion leaves.
proof fn lemma_insert_done_of(
    h0: HiveView,
    h6: HiveView,
    parent: u32,
    name: Seq<char>,
    new_off: u32,
)
    requires
        insert_core_done(h0, h6, parent, name, new_off),
        insert_chain_done(h0, h6, parent, new_off),
    ensures
        insert_done(h0, h6, parent, name, new_off),
{
    reveal(insert_done);
}

} // verus!

verus! {

/// What a subkey insertion leaves, from what each of its steps does.
#[verifier::spinoff_prover]
#[verifier::rlimit(100)]
proof fn lemma_insert_law(
    h0: HiveView,
    h1: HiveView,
    h2: HiveView,
    h3: HiveView,
    h4: HiveView,
    h5: HiveView,
    h6: HiveView,
    parent: u32,
    name: Seq<char>,
    new_off: u32,
    l_off: u32,
    es: Seq<(Seq<char>, u32)>,
    ss: Seq<(Seq<char>, u32)>,
    lp: Seq<u8>,
    kind: crate::cell::LeafKind,
    cnt: u32,
)
    requires
        insert_ready(h0, parent, name),
        h1.header == h0.header,
        h1.data.len() == h0.data.len(),
        crate::cell::incr_refcount_spec(h0.data, key_node_at(h0.data, parent)->Ok_0.security_offset)
            == Ok::<Seq<u8>, RegError>(h1.data),
        tiled(h1.data, h1.header.hive_bins_size) ==> {
            &&& tiled(h2.data, h2.header.hive_bins_size)
            &&& used_tile(h2.data, new_off + 0x1000)
            &&& !used_tile(h1.data, new_off + 0x1000)
            &&& keeps_used(h1.data, h2.data)
        },
        crate::hbin::fresh_cell(
            h1.data,
            h2.data,
            new_off,
            crate::cell::key_node_bytes(name, parent, key_node_at(h0.data, parent)->Ok_0.security_offset).len() as int,
        ),
        crate::hbin::payload_range(h2.data, new_off) matches Ok((x, y)) && h2.data.subrange(
            x,
            x + crate::cell::key_node_bytes(name, parent, key_node_at(h0.data, parent)->Ok_0.security_offset).len(),
        ) == crate::cell::key_node_bytes(name, parent, key_node_at(h0.data, parent)->Ok_0.security_offset),
        child_entries_spec(h2.data, parent) == Ok::<Seq<(Seq<char>, u32)>, RegError>(es),
        sorted_by_name(ss),
        ss.to_multiset() == es.push((name, new_off)).to_multiset(),
        crate::cell::is_leaf_list(lp, kind, ss),
        tiled(h2.data, h2.header.hive_bins_size) ==> {
            &&& tiled(h3.data, h3.header.hive_bins_size)
            &&& used_tile(h3.data, l_off + 0x1000)
            &&& !used_tile(h2.data, l_off + 0x1000)
            &&& keeps_used(h2.data, h3.data)
        },
        crate::hbin::fresh_cell(h2.data, h3.data, l_off, lp.len() as int),
        crate::hbin::payload_range(h3.data, l_off) matches Ok((x, y)) && h3.data.subrange(x, x + lp.len())
            == lp,
        h3.data.len() <= crate::hbin::max_hive_len(),
        h4.data.len() == h3.data.len(),
        forall|i: int|
            0 <= i < h3.data.len() && outside_headers(
                lists_freed(h3.data, key_node_at(h0.data, parent)->Ok_0.subkey_list_offset),
                i,
            ) ==> #[trigger] h4.data[i] == h3.data[i],
        frees_ready(
            h3,
            lists_freed(h3.data, key_node_at(h0.data, parent)->Ok_0.subkey_list_offset),
        ) ==> frees_keep_tiles(
            h3,
            h4,
            lists_freed(h3.data, key_node_at(h0.data, parent)->Ok_0.subkey_list_offset),
        ),
        h5.header == h4.header,
        h6.header == h5.header,
        crate::cell::set_field_spec(h4.data, parent, 28, l_off) == Ok::<Seq<u8>, RegError>(h5.data),
        crate::cell::set_field_spec(h5.data, parent, 20, cnt) == Ok::<Seq<u8>, RegError>(h6.data),
    ensures
        insert_done(h0, h6, parent, name, new_off),
        child_entries_spec(h0.data, parent) == Ok::<Seq<(Seq<char>, u32)>, RegError>(es),
        child_entries_spec(h6.data, parent) == Ok::<Seq<(Seq<char>, u32)>, RegError>(ss),
        key_node_at(h6.data, parent) matches Ok(pk2) && pk2.subkey_count == cnt,
{
    let sk = key_node_at(h0.data, parent)->Ok_0.security_offset;
    let kb = crate::cell::key_node_bytes(name, parent, sk);
    assert(crate::hbin::payload_range(h2.data, new_off) matches Ok((x, y)) && y - x >= kb.len());
    assert(crate::hbin::payload_range(h3.data, l_off) matches Ok((x, y)) && y - x >= lp.len());
    assert(0x1020 <= l_off + 0x1000);
    lemma_insert_core(h0, h1, h2, h3, h4, h5, h6, parent, name, new_off, l_off, es, ss, lp, kind, cnt);
    assert(kb.len() <= 76 + 0xFFFF) by {
        reveal(insert_ready);
    }
    assert(lp.len() <= 4 + 8 * 0xFFFF);
    lemma_insert_chain(
        h0,
        h1,
        h2,
        h3,
        h4,
        h5,
        h6,
        parent,
        name,
        new_off,
        l_off,
        ss,
        kb.len() as int,
        lp.len() as int,
        cnt,
    );
    lemma_insert_done_of(h0, h6, parent, name, new_off);
}

} // verus!

verus! {

/// Allocated cells other than the parent `p`, its security cell `sk` and
/// the freed lists `fs`: the cells a subkey insertion under `p` keeps.
pub open spec fn kept_key(d: Seq<u8>, p: u32, sk: u32, fs: Seq<u32>) -> spec_fn(u32) -> bool {
    |o: u32| used_tile(d, o + 0x1000) && o != p && o != sk && !fs.contains(o)
}

/// The key nodes whose names a subkey insertion under `p` keeps: `p`
/// itself and the cells it keeps.
pub open spec fn kept_name(d: Seq<u8>, p: u32, sk: u32, fs: Seq<u32>) -> spec_fn(u32) -> bool {
    |o: u32| o == p || (used_tile(d, o + 0x1000) && o != sk && !fs.contains(o))
}

/// The first component of `parts` that following them from `cur` finds
/// missing: its index and the key node it is missing under.
pub open spec fn first_missing(d: Seq<u8>, cur: u32, parts: Seq<Seq<char>>) -> Option<(int, u32)>
    decreases parts.len(),
{
    if parts.len() == 0 {
        None
    } else {
        match find_child_spec(d, cur, parts[0]) {
            Ok(None) => Some((0, cur)),
            Ok(Some(o)) => match first_missing(d, o, parts.skip(1)) {
                Some((k, c)) => Some((k + 1, c)),
                None => None,
            },
            Err(_) => None,
        }
    }
}

/// What creating the keys along `path` needs for the last one to be found
/// by the path afterwards: at the first missing component, the insertion
/// is ready, the cells the walk to it reads are apart from those the
/// insertion writes, and the names of the components still to create fit
/// their 16-bit lengths.
#[verifier::opaque]
pub open spec fn create_ready(h: HiveView, path: Seq<char>) -> bool {
    let parts = path_parts(path);
    let root = h.header.root_cell_offset;
    match first_missing(h.data, root, parts) {
        None => true,
        Some((k, c)) => {
            let pk = key_node_at(h.data, c)->Ok_0;
            let fs = lists_freed(h.data, pk.subkey_list_offset);
            let sk = pk.security_offset;
            &&& insert_ready(h, c, parts[k])
            &&& walk_cells_ok(
                h.data,
                root,
                parts.take(k),
                kept_key(h.data, c, sk, fs),
                kept_name(h.data, c, sk, fs),
                kept_key(h.data, c, sk, fs),
            )
            &&& forall|j: int|
                k < j < parts.len() ==> crate::cell::name_to_bytes(
                    #[trigger] parts[j],
                    vstd::utf8::is_ascii_chars(parts[j]),
                ).len() <= 0xFFFF
        }
    }
}

/// A scan whose key nodes all satisfy `ok` reads only such nodes.
proof fn lemma_scan_all_ok(d: Seq<u8>, offs: Seq<u32>, name: Seq<char>, ok: spec_fn(u32) -> bool)
    requires
        forall|k: int| 0 <= k < offs.len() ==> #[trigger] ok(offs[k]),
    ensures
        scan_cells_ok(d, offs, name, ok),
    decreases offs.len(),
{
    if offs.len() > 0 {
        assert(ok(offs[0]));
        assert forall|k: int| 0 <= k < offs.skip(1).len() implies #[trigger] ok(offs.skip(1)[k]) by {
            assert(offs.skip(1)[k] == offs[k + 1]);
        }
        lemma_scan_all_ok(d, offs.skip(1), name, ok);
    }
}

/// The subkeys of the key that `parts` names from the root are sorted by
/// name.
pub open spec fn sorted_under(h: HiveView, parts: Seq<Seq<char>>) -> bool {
    match resolve_from(h.data, h.header.root_cell_offset, parts) {
        Lookup::Found(p) => child_entries_spec(h.data, p) is Ok && sorted_by_name(
            child_entries_spec(h.data, p)->Ok_0,
        ),
        _ => false,
    }
}

/// The new key node and what it needs to take the next insertion.
pub open spec fn create_chain(h: HiveView, parts: Seq<Seq<char>>, cur: u32, sk: u32) -> bool {
    &&& tiled(h.data, h.header.hive_bins_size)
    &&& used_tile(h.data, cur + 0x1000)
    &&& used_tile(h.data, sk + 0x1000)
    &&& cur != sk
    &&& key_node_at(h.data, cur) is Ok
    &&& key_node_at(h.data, cur)->Ok_0.subkey_list_offset == FREE
    &&& key_node_at(h.data, cur)->Ok_0.value_list_offset == FREE
    &&& key_node_at(h.data, cur)->Ok_0.value_count == 0
    &&& key_node_at(h.data, cur)->Ok_0.security_offset == sk
    &&& h.data.len() <= crate::hbin::max_hive_len()
    &&& resolve_from(h.data, h.header.root_cell_offset, parts) == Lookup::<u32>::Found(cur)
    &&& walk_cells_ok(
        h.data,
        h.header.root_cell_offset,
        parts,
        kept_key(h.data, cur, sk, Seq::empty()),
        kept_name(h.data, cur, sk, Seq::empty()),
        kept_key(h.data, cur, sk, Seq::empty()),
    )
}

/// The cells an insertion keeps read the same after it, and satisfy the
/// conditions of the next insertion, under the new key node.
#[verifier::spinoff_prover]
proof fn lemma_step_preds(prev: HiveView, new: HiveView, p: u32, x: Seq<char>, n: u32)
    requires
        insert_done(prev, new, p, x, n),
        key_node_at(prev.data, p) is Ok,
    ensures
        ({
            let d = prev.data;
            let d2 = new.data;
            let pk = key_node_at(d, p)->Ok_0;
            let sk = pk.security_offset;
            let fs = lists_freed(d, pk.subkey_list_offset);
            let a = kept_key(d, p, sk, fs);
            let b = kept_name(d, p, sk, fs);
            let a2 = kept_key(d2, n, sk, Seq::<u32>::empty());
            let b2 = kept_name(d2, n, sk, Seq::<u32>::empty());
            &&& forall|o: u32| #[trigger] a(o) ==> key_same(d, d2, o) && a2(o)
            &&& forall|o: u32| #[trigger] b(o) ==> name_same(d, d2, o) && b2(o)
            &&& forall|o: u32| #[trigger] a(o) ==> crate::cell::cell_payload_spec(d2, o)
                == crate::cell::cell_payload_spec(d, o) && a2(o)
        }),
{
    reveal(insert_done);
    reveal(insert_core_done);
    reveal(insert_chain_done);
    let d = prev.data;
    let d2 = new.data;
    let pk = key_node_at(d, p)->Ok_0;
    let sk = pk.security_offset;
    let fs = lists_freed(d, pk.subkey_list_offset);
    let a = kept_key(d, p, sk, fs);
    let b = kept_name(d, p, sk, fs);
    let a2 = kept_key(d2, n, sk, Seq::<u32>::empty());
    let b2 = kept_name(d2, n, sk, Seq::<u32>::empty());
    assert forall|o: u32| #[trigger] a(o) implies key_same(d, d2, o) && a2(o) && crate::cell::cell_payload_spec(d2, o)
        == crate::cell::cell_payload_spec(d, o) by {
        assert(insert_keeps(d, p, pk, o));
        assert(cell_kept(d, d2, o));
        assert(used_tile(d2, o + 0x1000));
        lemma_cell_kept_reads(d, d2, o);
    }
    assert forall|o: u32| #[trigger] b(o) implies name_same(d, d2, o) && b2(o) by {
        if o != p {
            assert(insert_keeps(d, p, pk, o));
            assert(cell_kept(d, d2, o));
            assert(used_tile(d2, o + 0x1000));
            lemma_cell_kept_reads(d, d2, o);
        }
    }
}

/// The step at the parent after an insertion reads the parent, its new
/// list and the key nodes the scan meets, under the conditions of the next
/// insertion.
#[verifier::spinoff_prover]
proof fn lemma_step_level(prev: HiveView, new: HiveView, p: u32, x: Seq<char>, n: u32)
    requires
        insert_done(prev, new, p, x, n),
        key_node_at(prev.data, p) is Ok,
    ensures
        ({
            let sk = key_node_at(prev.data, p)->Ok_0.security_offset;
            walk_cells_ok(
                new.data,
                p,
                seq![x],
                kept_key(new.data, n, sk, Seq::<u32>::empty()),
                kept_name(new.data, n, sk, Seq::<u32>::empty()),
                kept_key(new.data, n, sk, Seq::<u32>::empty()),
            )
        }),
{
    reveal(insert_done);
    reveal(insert_core_done);
    reveal(insert_chain_done);
    let d = prev.data;
    let d2 = new.data;
    let pk = key_node_at(d, p)->Ok_0;
    let sk = pk.security_offset;
    let a2 = kept_key(d2, n, sk, Seq::<u32>::empty());
    let b2 = kept_name(d2, n, sk, Seq::<u32>::empty());
    let pk2 = key_node_at(d2, p)->Ok_0;
    let l = pk2.subkey_list_offset;
    let ks = subkey_list(d2, l)->Ok_0;
    assert(a2(p));
    assert(a2(l));
    assert(list_cells_ok(d2, l, crate::cell::ri_depth(), a2));
    assert forall|k: int| 0 <= k < ks.len() implies #[trigger] b2(ks[k]) by {
        if ks[k] != n {
            assert(insert_keeps(d, p, pk, ks[k]));
        }
    }
    lemma_scan_all_ok(d2, ks, x, b2);
    assert(walk_cells_ok(d2, n, seq![x].skip(1), a2, b2, a2));
    assert(seq![x][0] == x);
}

/// One insertion along a path: the walk to the parent reads the same, and
/// the path one component longer names the new key, which can take the
/// next insertion.
#[verifier::spinoff_prover]
#[verifier::rlimit(50)]
proof fn lemma_create_step(
    prev: HiveView,
    new: HiveView,
    s: Seq<Seq<char>>,
    p: u32,
    x: Seq<char>,
    n: u32,
)
    requires
        insert_done(prev, new, p, x, n),
        new.header.root_cell_offset == prev.header.root_cell_offset,
        resolve_from(prev.data, prev.header.root_cell_offset, s) == Lookup::<u32>::Found(p),
        key_node_at(prev.data, p) is Ok,
        walk_cells_ok(
            prev.data,
            prev.header.root_cell_offset,
            s,
            kept_key(
                prev.data,
                p,
                key_node_at(prev.data, p)->Ok_0.security_offset,
                lists_freed(prev.data, key_node_at(prev.data, p)->Ok_0.subkey_list_offset),
            ),
            kept_name(
                prev.data,
                p,
                key_node_at(prev.data, p)->Ok_0.security_offset,
                lists_freed(prev.data, key_node_at(prev.data, p)->Ok_0.subkey_list_offset),
            ),
            kept_key(
                prev.data,
                p,
                key_node_at(prev.data, p)->Ok_0.security_offset,
                lists_freed(prev.data, key_node_at(prev.data, p)->Ok_0.subkey_list_offset),
            ),
        ),
    ensures
        create_chain(new, s.push(x), n, key_node_at(prev.data, p)->Ok_0.security_offset),
        key_node_at(new.data, n)->Ok_0.name == x,
        sorted_under(new, s),
{
    let d = prev.data;
    let d2 = new.data;
    let root = prev.header.root_cell_offset;
    let pk = key_node_at(d, p)->Ok_0;
    let sk = pk.security_offset;
    let fs = lists_freed(d, pk.subkey_list_offset);
    let a = kept_key(d, p, sk, fs);
    let b = kept_name(d, p, sk, fs);
    let e = Seq::<u32>::empty();
    let a2 = kept_key(d2, n, sk, e);
    let b2 = kept_name(d2, n, sk, e);
    lemma_step_preds(prev, new, p, x, n);
    lemma_walk_move(d, d2, root, s, a, b, a, a2, b2, a2);
    lemma_step_level(prev, new, p, x, n);
    lemma_walk_push(d2, root, s, x, a2, b2, a2, p);
    lemma_resolve_push(d2, root, s, x);
    reveal(insert_done);
    reveal(insert_core_done);
    reveal(insert_chain_done);
}

} // verus!

verus! {

/// A first missing component found `i` components further down.
pub open spec fn missing_shift(m: Option<(int, u32)>, i: int) -> Option<(int, u32)> {
    match m {
        Some((k, c)) => Some((k + i, c)),
        None => None,
    }
}

/// The names of the components of `parts` from `i` on fit their 16-bit
/// lengths.
pub open spec fn names_fit_from(parts: Seq<Seq<char>>, i: int) -> bool {
    forall|j: int|
        i <= j < parts.len() ==> crate::cell::name_to_bytes(
            #[trigger] parts[j],
            vstd::utf8::is_ascii_chars(parts[j]),
        ).len() <= 0xFFFF
}

/// A new key node on the path takes the next insertion: it has no subkey,
/// so none of that name.
proof fn lemma_chain_ready(h: HiveView, s: Seq<Seq<char>>, cur: u32, sk: u32, x: Seq<char>)
    requires
        create_chain(h, s, cur, sk),
        crate::cell::name_to_bytes(x, vstd::utf8::is_ascii_chars(x)).len() <= 0xFFFF,
    ensures
        insert_ready(h, cur, x),
        find_child_spec(h.data, cur, x) == Ok::<Option<u32>, RegError>(None),
        key_node_at(h.data, cur) is Ok,
        key_node_at(h.data, cur)->Ok_0.security_offset == sk,
        lists_freed(h.data, key_node_at(h.data, cur)->Ok_0.subkey_list_offset) == Seq::<u32>::empty(),
{
    let pk = key_node_at(h.data, cur)->Ok_0;
    assert(subkey_list(h.data, FREE) == Ok::<Seq<u32>, RegError>(Seq::empty()));
    assert(lists_freed(h.data, FREE) == Seq::<u32>::empty());
    assert(Seq::<u32>::empty().no_duplicates());
    reveal(insert_ready);
}

/// Where the walk from the root first finds a component missing, once the
/// walk has reached `cur` after `i` components.
proof fn lemma_missing_here(d: Seq<u8>, root: u32, ps: Seq<Seq<char>>, cur: u32, i: int)
    requires
        0 <= i < ps.len(),
        first_missing(d, root, ps) == missing_shift(first_missing(d, cur, ps.skip(i)), i),
        find_child_spec(d, cur, ps[i]) == Ok::<Option<u32>, RegError>(None),
    ensures
        first_missing(d, root, ps) == Some((i, cur)),
{
    assert(ps.skip(i)[0] == ps[i]);
}

/// The walk from the root one component further, past a subkey found.
proof fn lemma_missing_next(d: Seq<u8>, root: u32, ps: Seq<Seq<char>>, cur: u32, i: int, o: u32)
    requires
        0 <= i < ps.len(),
        first_missing(d, root, ps) == missing_shift(first_missing(d, cur, ps.skip(i)), i),
        find_child_spec(d, cur, ps[i]) == Ok::<Option<u32>, RegError>(Some(o)),
        resolve_from(d, root, ps.take(i)) == Lookup::<u32>::Found(cur),
    ensures
        first_missing(d, root, ps) == missing_shift(first_missing(d, o, ps.skip(i + 1)), i + 1),
        resolve_from(d, root, ps.take(i + 1)) == Lookup::<u32>::Found(o),
{
    assert(ps.skip(i)[0] == ps[i]);
    assert(ps.skip(i).skip(1) =~= ps.skip(i + 1));
    lemma_resolve_push(d, root, ps.take(i), ps[i]);
    assert(ps.take(i).push(ps[i]) =~= ps.take(i + 1));
}

} // verus!

verus! {

/// Every byte from the hive bins on is the same, as is the length.
pub open spec fn bins_same(d: Seq<u8>, d2: Seq<u8>) -> bool {
    &&& d2.len() == d.len()
    &&& forall|i: int| 0x1000 <= i < d.len() ==> #[trigger] d2[i] == d[i]
}

/// A scan by name reads the same from the same cells.
proof fn lemma_first_match_same(d: Seq<u8>, d2: Seq<u8>, offs: Seq<u32>, name: Seq<char>)
    requires
        forall|o: u32| #[trigger] key_node_at(d2, o) == key_node_at(d, o),
    ensures
        first_match(d2, offs, name) == first_match(d, offs, name),
    decreases offs.len(),
{
    if offs.len() > 0 {
        assert(key_node_at(d2, offs[0]) == key_node_at(d, offs[0]));
        lemma_first_match_same(d, d2, offs.skip(1), name);
    }
}

/// Following a path reads the same from the same cells.
proof fn lemma_resolve_same(d: Seq<u8>, d2: Seq<u8>, cur: u32, parts: Seq<Seq<char>>)
    requires
        crate::cell::same_cells(d, d2),
    ensures
        resolve_from(d2, cur, parts) == resolve_from(d, cur, parts),
    decreases parts.len(),
{
    crate::cell::lemma_reads_same(d, d2);
    if parts.len() > 0 {
        assert(key_node_at(d2, cur) == key_node_at(d, cur));
        match key_node_at(d, cur) {
            Err(_) => {},
            Ok(nk) => {
                crate::cell::lemma_subkeys_same(d, d2, nk.subkey_list_offset, crate::cell::ri_depth());
                match subkey_list(d, nk.subkey_list_offset) {
                    Err(_) => {},
                    Ok(offs) => {
                        lemma_first_match_same(d, d2, offs, parts[0]);
                        match first_match(d, offs, parts[0]) {
                            Ok(Some(o)) => {
                                lemma_resolve_same(d, d2, o, parts.skip(1));
                            },
                            _ => {},
                        }
                    },
                }
            },
        }
    }
}

/// A value looked up by name reads the same from the same cells.
proof fn lemma_find_value_same(d: Seq<u8>, d2: Seq<u8>, offs: Seq<u32>, name: Seq<char>)
    requires
        crate::cell::same_cells(d, d2),
    ensures
        find_value(d2, offs, name) == find_value(d, offs, name),
    decreases offs.len(),
{
    crate::cell::lemma_reads_same(d, d2);
    if offs.len() > 0 {
        assert(value_node_at(d2, offs[0]) == value_node_at(d, offs[0]));
        match value_node_at(d, offs[0]) {
            Err(_) => {},
            Ok(vk) => {
                assert(value_data_spec(d2, vk) == value_data_spec(d, vk));
                lemma_find_value_same(d, d2, offs.skip(1), name);
            },
        }
    }
}

/// The names of key nodes read the same from the same cells.
proof fn lemma_names_same(d: Seq<u8>, d2: Seq<u8>, offs: Seq<u32>)
    requires
        crate::cell::same_cells(d, d2),
    ensures
        names_of(d2, offs) == names_of(d, offs),
    decreases offs.len(),
{
    crate::cell::lemma_reads_same(d, d2);
    if offs.len() > 0 {
        assert(key_node_at(d2, offs[0]) == key_node_at(d, offs[0]));
        lemma_names_same(d, d2, offs.skip(1));
    }
}

/// The values of value nodes read the same from the same cells.
proof fn lemma_all_values_same(d: Seq<u8>, d2: Seq<u8>, offs: Seq<u32>)
    requires
        crate::cell::same_cells(d, d2),
    ensures
        all_values(d2, offs) == all_values(d, offs),
    decreases offs.len(),
{
    crate::cell::lemma_reads_same(d, d2);
    if offs.len() > 0 {
        assert(value_node_at(d2, offs[0]) == value_node_at(d, offs[0]));
        match value_node_at(d, offs[0]) {
            Err(_) => {},
            Ok(vk) => {
                assert(value_data_spec(d2, vk) == value_data_spec(d, vk));
                lemma_all_values_same(d, d2, offs.skip(1));
            },
        }
    }
}

/// Two hives that agree from the hive bins on and on the root key hold the
/// same keys, subkeys and values: every path names the same key, whose
/// subkey names, values and value of each name read the same.
pub proof fn lemma_same_bins_reads(h: HiveView, h2: HiveView, path: Seq<char>, name: Seq<char>)
    requires
        bins_same(h.data, h2.data),
        h2.header.root_cell_offset == h.header.root_cell_offset,
    ensures
        resolve_spec(h2, path) == resolve_spec(h, path),
        get_value_spec(h2, path, name) == get_value_spec(h, path, name),
        resolve_spec(h, path) matches Lookup::Found(off) ==> subkey_names(h2.data, off) == subkey_names(
            h.data,
            off,
        ) && values_under(h2.data, off) == values_under(h.data, off),
{
    let d = h.data;
    let d2 = h2.data;
    crate::cell::lemma_bins_same_cells(d, d2);
    crate::cell::lemma_reads_same(d, d2);
    lemma_resolve_same(d, d2, h.header.root_cell_offset, path_parts(path));
    if let Lookup::Found(off) = resolve_spec(h, path) {
        assert(key_node_at(d2, off) == key_node_at(d, off));
        match key_node_at(d, off) {
            Err(_) => {},
            Ok(nk) => {
                assert(value_list(d2, nk.value_list_offset, nk.value_count) == value_list(
                    d,
                    nk.value_list_offset,
                    nk.value_count,
                ));
                crate::cell::lemma_subkeys_same(d, d2, nk.subkey_list_offset, crate::cell::ri_depth());
                match value_list(d, nk.value_list_offset, nk.value_count) {
                    Ok(offs) => {
                        lemma_find_value_same(d, d2, offs, name);
                        lemma_all_values_same(d, d2, offs);
                    },
                    _ => {},
                }
                match subkey_list(d, nk.subkey_list_offset) {
                    Ok(offs) => {
                        lemma_names_same(d, d2, offs);
                    },
                    _ => {},
                }
            },
        }
    }
}

} // verus!

verus! {

/// The cells that looking up the value `name` among the value nodes `offs`
/// reads all satisfy `ok`.
pub open spec fn value_reads_ok(d: Seq<u8>, offs: Seq<u32>, name: Seq<char>, ok: spec_fn(u32) -> bool) -> bool
    decreases offs.len(),
{
    if offs.len() == 0 {
        true
    } else {
        ok(offs[0]) && match value_node_at(d, offs[0]) {
            Err(_) => true,
            Ok(vk) => if name_order(vk.name, name) == 0 {
                crate::cell::data_cells_ok(d, vk, ok)
            } else {
                value_reads_ok(d, offs.skip(1), name, ok)
            },
        }
    }
}

/// The cells that reading the value `name` of the key at `path` reads all
/// satisfy `ok`.
pub open spec fn get_reads_ok(h: HiveView, path: Seq<char>, name: Seq<char>, ok: spec_fn(u32) -> bool) -> bool {
    &&& walk_cells_ok(h.data, h.header.root_cell_offset, path_parts(path), ok, ok, ok)
    &&& match resolve_spec(h, path) {
        Lookup::Found(off) => ok(off) && match key_node_at(h.data, off) {
            Err(_) => true,
            Ok(nk) => (nk.value_count == 0 || nk.value_list_offset == 0 || nk.value_list_offset == FREE
                || ok(nk.value_list_offset)) && match value_list(h.data, nk.value_list_offset, nk.value_count) {
                Err(_) => true,
                Ok(offs) => value_reads_ok(h.data, offs, name, ok),
            },
        },
        _ => true,
    }
}

/// A value lookup reads the same where the cells it reads do.
proof fn lemma_find_value_frame(d: Seq<u8>, d2: Seq<u8>, offs: Seq<u32>, name: Seq<char>, ok: spec_fn(u32) -> bool)
    requires
        value_reads_ok(d, offs, name, ok),
        forall|o: u32| #[trigger] ok(o) ==> crate::cell::cell_payload_spec(d2, o) == crate::cell::cell_payload_spec(d, o)
            && value_node_at(d2, o) == value_node_at(d, o),
    ensures
        find_value(d2, offs, name) == find_value(d, offs, name),
    decreases offs.len(),
{
    if offs.len() > 0 {
        assert(ok(offs[0]));
        match value_node_at(d, offs[0]) {
            Err(_) => {},
            Ok(vk) => {
                if name_order(vk.name, name) == 0 {
                    crate::cell::lemma_data_frame(d, d2, vk, ok);
                } else {
                    lemma_find_value_frame(d, d2, offs.skip(1), name, ok);
                }
            },
        }
    }
}

/// Reading a value by path gives the same in a hive whose cells that the
/// read reads are kept.
pub proof fn lemma_reads_kept(h: HiveView, h2: HiveView, path: Seq<char>, name: Seq<char>, ok: spec_fn(u32) -> bool)
    requires
        h2.header.root_cell_offset == h.header.root_cell_offset,
        get_reads_ok(h, path, name, ok),
        forall|o: u32| #[trigger] ok(o) ==> is_tile(h.data, o + 0x1000) && cell_kept(h.data, h2.data, o),
    ensures
        resolve_spec(h2, path) == resolve_spec(h, path),
        get_value_spec(h2, path, name) == get_value_spec(h, path, name),
{
    let d = h.data;
    let d2 = h2.data;
    assert forall|o: u32| #[trigger] ok(o) implies key_same(d, d2, o) && name_same(d, d2, o)
        && crate::cell::cell_payload_spec(d2, o) == crate::cell::cell_payload_spec(d, o) && value_node_at(
        d2,
        o,
    ) == value_node_at(d, o) && ok(o) by {
        lemma_cell_kept_reads(d, d2, o);
    }
    lemma_walk_move(d, d2, h.header.root_cell_offset, path_parts(path), ok, ok, ok, ok, ok, ok);
    if let Lookup::Found(off) = resolve_spec(h, path) {
        lemma_cell_kept_reads(d, d2, off);
        match key_node_at(d, off) {
            Err(_) => {},
            Ok(nk) => {
                let l = nk.value_list_offset;
                if !(nk.value_count == 0 || l == 0 || l == FREE) {
                    lemma_cell_kept_reads(d, d2, l);
                }
                match value_list(d, l, nk.value_count) {
                    Ok(offs) => {
                        lemma_find_value_frame(d, d2, offs, name, ok);
                    },
                    _ => {},
                }
            },
        }
    }
}

/// Allocated cells that are no value cell of the key node at `nk_off`.
pub open spec fn unrelated_to(d: Seq<u8>, nk_off: u32) -> spec_fn(u32) -> bool {
    |o: u32| used_tile(d, o + 0x1000) && !value_cell(d, nk_off, o)
}

/// A value write under the key node at `nk_off` that keeps every other cell
/// leaves every value whose read touches none of its value cells as it
/// was.
pub proof fn lemma_write_keeps_unrelated(h: HiveView, h2: HiveView, nk_off: u32, path: Seq<char>, name: Seq<char>)
    requires
        keeps_other_cells(h.data, h2.data, nk_off),
        h2.header.root_cell_offset == h.header.root_cell_offset,
        get_reads_ok(h, path, name, unrelated_to(h.data, nk_off)),
    ensures
        get_value_spec(h2, path, name) == get_value_spec(h, path, name),
{
    let ok = unrelated_to(h.data, nk_off);
    assert forall|o: u32| #[trigger] ok(o) implies is_tile(h.data, o + 0x1000) && cell_kept(h.data, h2.data, o) by {
        assert(cell_kept(h.data, h2.data, o));
    }
    lemma_reads_kept(h, h2, path, name, ok);
}

} // verus!

verus! {

/// The cells that creating the keys along `path` keeps: at the first
/// missing component, every allocated cell but the parent, its security
/// cell and the lists it frees; when nothing is missing, every allocated
/// cell.
pub open spec fn create_keeps(h: HiveView, path: Seq<char>) -> spec_fn(u32) -> bool {
    match first_missing(h.data, h.header.root_cell_offset, path_parts(path)) {
        Some((k, c)) => kept_key(
            h.data,
            c,
            key_node_at(h.data, c)->Ok_0.security_offset,
            lists_freed(h.data, key_node_at(h.data, c)->Ok_0.subkey_list_offset),
        ),
        None => |o: u32| used_tile(h.data, o + 0x1000),
    }
}

/// Creating the keys along `path` leaves every key lookup and every value
/// whose read touches only cells that the creation keeps as it was.
pub proof fn lemma_create_keeps_unrelated(
    h: HiveView,
    h2: HiveView,
    path: Seq<char>,
    other: Seq<char>,
    name: Seq<char>,
)
    requires
        h2.header.root_cell_offset == h.header.root_cell_offset,
        forall|o: u32| #[trigger] create_keeps(h, path)(o) ==> cell_kept(h.data, h2.data, o),
        get_reads_ok(h, other, name, create_keeps(h, path)),
    ensures
        resolve_spec(h2, other) == resolve_spec(h, other),
        get_value_spec(h2, other, name) == get_value_spec(h, other, name),
{
    let ok = create_keeps(h, path);
    assert forall|o: u32| #[trigger] ok(o) implies is_tile(h.data, o + 0x1000) && cell_kept(h.data, h2.data, o) by {
        assert(cell_kept(h.data, h2.data, o));
    }
    lemma_reads_kept(h, h2, other, name, ok);
}

/// An allocated cell is kept from a buffer to itself.
proof fn lemma_kept_self(d: Seq<u8>, o: u32)
    requires
        used_tile(d, o + 0x1000),
    ensures
        cell_kept(d, d, o),
{
    crate::tiling::lemma_tile_bounds(d, o + 0x1000);
}

/// The cells an insertion keeps stay kept since `h0`, and stay allocated.
proof fn lemma_keeps_step(h0: HiveView, prev: HiveView, new: HiveView, p: u32, x: Seq<char>, n: u32, kf: spec_fn(u32) -> bool)
    requires
        insert_done(prev, new, p, x, n),
        key_node_at(prev.data, p) is Ok,
        forall|o: u32|
            #[trigger] kf(o) ==> insert_keeps(prev.data, p, key_node_at(prev.data, p)->Ok_0, o) && cell_kept(
                h0.data,
                prev.data,
                o,
            ) && is_tile(h0.data, o + 0x1000),
    ensures
        forall|o: u32|
            #[trigger] kf(o) ==> cell_kept(h0.data, new.data, o) && used_tile(new.data, o + 0x1000) && o
                != n && is_tile(h0.data, o + 0x1000),
{
    reveal(insert_done);
    reveal(insert_core_done);
    reveal(insert_chain_done);
    let pk = key_node_at(prev.data, p)->Ok_0;
    assert forall|o: u32| #[trigger] kf(o) implies cell_kept(h0.data, new.data, o) && used_tile(new.data, o + 0x1000)
        && o != n && is_tile(h0.data, o + 0x1000) by {
        assert(insert_keeps(prev.data, p, pk, o));
        assert(cell_kept(prev.data, new.data, o));
        lemma_cell_kept_trans(h0.data, prev.data, new.data, o);
    }
}

} // verus!

verus! {

/// A cell that creating the keys along `path` keeps is an allocated cell,
/// kept from the hive to itself.
proof fn lemma_keeps_self(h: HiveView, path: Seq<char>, o: u32)
    requires
        create_keeps(h, path)(o),
    ensures
        cell_kept(h.data, h.data, o),
{
    lemma_kept_self(h.data, o);
}

/// Before an insertion while creating the keys along `path`, the cells the
/// creation keeps are kept by that insertion.
proof fn lemma_keeps_ready(h0: HiveView, prev: HiveView, path: Seq<char>, cur: u32, sk: u32, inserted: bool)
    requires
        !inserted ==> prev == h0,
        !inserted ==> (first_missing(h0.data, h0.header.root_cell_offset, path_parts(path)) matches Some(
            (k, c),
        ) && c == cur),
        !inserted ==> key_node_at(h0.data, cur) is Ok,
        inserted ==> key_node_at(prev.data, cur) is Ok && key_node_at(prev.data, cur)->Ok_0.security_offset
            == sk && lists_freed(prev.data, key_node_at(prev.data, cur)->Ok_0.subkey_list_offset)
            == Seq::<u32>::empty(),
        inserted ==> forall|o: u32|
            #[trigger] create_keeps(h0, path)(o) ==> cell_kept(h0.data, prev.data, o) && used_tile(
                prev.data,
                o + 0x1000,
            ) && o != cur && o != sk && is_tile(h0.data, o + 0x1000),
    ensures
        forall|o: u32|
            #[trigger] create_keeps(h0, path)(o) ==> insert_keeps(
                prev.data,
                cur,
                key_node_at(prev.data, cur)->Ok_0,
                o,
            ) && cell_kept(h0.data, prev.data, o) && is_tile(h0.data, o + 0x1000),
{
    let kf = create_keeps(h0, path);
    assert forall|o: u32| #[trigger] kf(o) implies insert_keeps(prev.data, cur, key_node_at(prev.data, cur)->Ok_0, o)
        && cell_kept(h0.data, prev.data, o) && is_tile(h0.data, o + 0x1000) by {
        if !inserted {
            lemma_kept_self(h0.data, o);
        }
    }
}

} // verus!

verus! {

/// The cells a walk reads satisfy weaker conditions too.
proof fn lemma_walk_to_path(
    d: Seq<u8>,
    cur: u32,
    parts: Seq<Seq<char>>,
    a: spec_fn(u32) -> bool,
    b: spec_fn(u32) -> bool,
    c: spec_fn(u32) -> bool,
    okk: spec_fn(u32) -> bool,
    okl: spec_fn(u32) -> bool,
)
    requires
        walk_cells_ok(d, cur, parts, a, b, c),
        forall|o: u32| #[trigger] a(o) ==> okk(o),
        forall|o: u32| #[trigger] b(o) ==> okk(o),
        forall|o: u32| #[trigger] c(o) ==> okl(o),
    ensures
        path_cells_ok(d, cur, parts, okk, okl),
    decreases parts.len(),
{
    if parts.len() > 0 {
        assert(a(cur));
        match key_node_at(d, cur) {
            Err(_) => {},
            Ok(nk) => {
                assert forall|o: u32| #[trigger] c(o) implies crate::cell::cell_payload_spec(d, o)
                    == crate::cell::cell_payload_spec(d, o) && okl(o) by {}
                lemma_list_move(d, d, nk.subkey_list_offset, crate::cell::ri_depth(), c, okl);
                match subkey_list(d, nk.subkey_list_offset) {
                    Err(_) => {},
                    Ok(offs) => {
                        assert forall|o: u32| #[trigger] b(o) implies name_same(d, d, o) && okk(o) by {}
                        lemma_scan_move(d, d, offs, parts[0], b, okk);
                        match first_match(d, offs, parts[0]) {
                            Ok(Some(o)) => {
                                lemma_walk_to_path(d, o, parts.skip(1), a, b, c, okk, okl);
                            },
                            _ => {},
                        }
                    },
                }
            },
        }
    }
}

/// A key that creating `path` made has no value yet, and neither it nor
/// the cells the path reads are in the way of a value write under it.
proof fn lemma_created_apart(h: HiveView, path: Seq<char>, cur: u32, sk: u32)
    requires
        create_chain(h, path_parts(path), cur, sk),
    ensures
        value_cells_apart(h, cur),
        path_apart(h, path, cur),
        resolve_spec(h, path) == Lookup::<u32>::Found(cur),
{
    let d = h.data;
    let e = Seq::<u32>::empty();
    let nk = key_node_at(d, cur)->Ok_0;
    assert(value_list(d, FREE, nk.value_count) == Ok::<Seq<u32>, RegError>(Seq::empty()));
    reveal(value_cells_apart);
    let a = kept_key(d, cur, sk, e);
    let b = kept_name(d, cur, sk, e);
    let okk = key_cells_apart(d, cur);
    let okl = list_cells_apart(d, cur);
    assert forall|o: u32| used_tile(d, o + 0x1000) && o != cur implies !#[trigger] value_cell(d, cur, o) by {
        crate::tiling::lemma_tile_bounds(d, o + 0x1000);
        if value_cell(d, cur, o) {
            assert(o == nk.value_list_offset);
        }
    }
    assert forall|o: u32| #[trigger] a(o) implies okk(o) by {
        assert(!value_cell(d, cur, o));
    }
    assert forall|o: u32| #[trigger] b(o) implies okk(o) by {
        if o != cur {
            assert(!value_cell(d, cur, o));
        }
    }
    assert forall|o: u32| #[trigger] a(o) implies okl(o) by {
        assert(!value_cell(d, cur, o));
    }
    lemma_walk_to_path(d, h.header.root_cell_offset, path_parts(path), a, b, a, okk, okl);
}

} // verus!

verus! {

/// Following a path reads the same where the cells it reads do, and those
/// cells satisfy new conditions in `d2`.
proof fn lemma_path_move(
    d: Seq<u8>,
    d2: Seq<u8>,
    cur: u32,
    parts: Seq<Seq<char>>,
    okk: spec_fn(u32) -> bool,
    okl: spec_fn(u32) -> bool,
    okk2: spec_fn(u32) -> bool,
    okl2: spec_fn(u32) -> bool,
)
    requires
        path_cells_ok(d, cur, parts, okk, okl),
        forall|o: u32| #[trigger] okk(o) ==> key_same(d, d2, o) && okk2(o),
        forall|o: u32| #[trigger] okl(o) ==> crate::cell::cell_payload_spec(d2, o) == crate::cell::cell_payload_spec(d, o)
            && okl2(o),
    ensures
        path_cells_ok(d2, cur, parts, okk2, okl2),
    decreases parts.len(),
{
    if parts.len() > 0 {
        assert(okk(cur));
        assert(key_same(d, d2, cur));
        match key_node_at(d, cur) {
            Err(_) => {},
            Ok(nk) => {
                lemma_list_move(d, d2, nk.subkey_list_offset, crate::cell::ri_depth(), okl, okl2);
                match subkey_list(d, nk.subkey_list_offset) {
                    Err(_) => {},
                    Ok(offs) => {
                        assert forall|o: u32| #[trigger] okk(o) implies name_same(d, d2, o) && okk2(o) by {
                            assert(key_same(d, d2, o));
                        }
                        lemma_scan_move(d, d2, offs, parts[0], okk, okk2);
                        match first_match(d, offs, parts[0]) {
                            Ok(Some(o)) => {
                                lemma_path_move(d, d2, o, parts.skip(1), okk, okl, okk2, okl2);
                            },
                            _ => {},
                        }
                    },
                }
            },
        }
    }
}

/// A value write under the key node at `nk_off` that keeps every other
/// cell and that node's name and subkey list, and whose new value cells
/// were no allocated cell before, leaves a path that read none of the old
/// value cells reading none of the new ones.
pub proof fn lemma_path_apart_kept(h: HiveView, h2: HiveView, path: Seq<char>, nk_off: u32)
    requires
        path_apart(h, path, nk_off),
        h2.header.root_cell_offset == h.header.root_cell_offset,
        keeps_other_cells(h.data, h2.data, nk_off),
        key_same(h.data, h2.data, nk_off),
        used_tile(h2.data, nk_off + 0x1000),
        forall|o: u32|
            used_tile(h.data, o + 0x1000) && !value_cell(h.data, nk_off, o) ==> #[trigger] used_tile(
                h2.data,
                o + 0x1000,
            ) && !value_cell(h2.data, nk_off, o),
    ensures
        path_apart(h2, path, nk_off),
{
    let d = h.data;
    let d2 = h2.data;
    let okk = key_cells_apart(d, nk_off);
    let okl = list_cells_apart(d, nk_off);
    let okk2 = key_cells_apart(d2, nk_off);
    let okl2 = list_cells_apart(d2, nk_off);
    assert forall|o: u32| #[trigger] okk(o) implies key_same(d, d2, o) && okk2(o) by {
        lemma_key_cell_kept(d, d2, nk_off, o);
        if o != nk_off {
            assert(used_tile(d2, o + 0x1000) && !value_cell(d2, nk_off, o));
        }
    }
    assert forall|o: u32| #[trigger] okl(o) implies crate::cell::cell_payload_spec(d2, o)
        == crate::cell::cell_payload_spec(d, o) && okl2(o) by {
        lemma_list_cell_kept(d, d2, nk_off, o);
        assert(used_tile(d2, o + 0x1000) && !value_cell(d2, nk_off, o));
    }
    lemma_path_move(d, d2, h.header.root_cell_offset, path_parts(path), okk, okl, okk2, okl2);
}

} // verus!

verus! {

/// After the append path of a value write, the hive is still tiled, and
/// every cell allocated after the new cells were but the old value list is
/// still allocated.
#[verifier::spinoff_prover]
#[verifier::rlimit(50)]
proof fn lemma_append_tiles(
    s2: Seq<u8>,
    s3: HiveView,
    s4: HiveView,
    s6: HiveView,
    nk_off: u32,
    nk: KeyNodeView,
    existing: Seq<u32>,
    v_off: u32,
    vk: crate::cell::ValueNodeView,
    l_off: u32,
    name: Seq<char>,
)
    requires
        append_facts(s2, s3.data, s4.data, s6.data, nk_off, nk, existing, v_off, vk, l_off, name),
        tiled(s3.data, s3.header.hive_bins_size),
        nk.value_list_offset != 0 && nk.value_list_offset != FREE ==> frees_keep_tiles(
            s3,
            s4,
            seq![nk.value_list_offset],
        ),
        !(nk.value_list_offset != 0 && nk.value_list_offset != FREE) ==> s4 == s3,
        s6.header == s4.header,
    ensures
        tiled(s6.data, s6.header.hive_bins_size),
        forall|o: u32|
            used_tile(s2, o + 0x1000) && o != nk.value_list_offset ==> #[trigger] used_tile(
                s6.data,
                o + 0x1000,
            ),
        used_tile(s6.data, l_off + 0x1000),
        !used_tile(s2, l_off + 0x1000),
{
    reveal(append_facts);
    let ol = nk.value_list_offset;
    let c_nk = nk_off + 0x1000;
    let a = nk_off + 0x1004;
    let d4 = s4.data;
    let d5 = crate::bytes::put_u32(d4, a + 40, l_off);
    let d6 = s6.data;
    lemma_key_node_room(s2, nk_off);
    lemma_used_kept(s2, s3.data, nk_off);
    assert(seq![ol].contains(ol)) by {
        assert(seq![ol][0] == ol);
    }
    assert(!seq![ol].contains(nk_off)) by {
        if seq![ol].contains(nk_off) {
            assert(seq![ol][0] == nk_off);
        }
    }
    assert(used_tile(d4, c_nk));
    crate::tiling::lemma_tile_bounds(d4, c_nk);
    crate::bytes::lemma_put_u32(d4, a + 40, l_off);
    crate::tiling::lemma_write_in_tile(d4, d5, c_nk, a + 40, a + 44);
    crate::bytes::lemma_put_u32(d5, a + 36, (existing.len() + 1) as u32);
    crate::tiling::lemma_write_in_tile(d5, d6, c_nk, a + 36, a + 40);
    assert(!seq![ol].contains(l_off)) by {
        if seq![ol].contains(l_off) {
            assert(seq![ol][0] == l_off);
        }
    }
    assert(used_tile(d4, l_off + 0x1000));
    assert(is_tile(d5, l_off + 0x1000));
    assert forall|o: u32| used_tile(s2, o + 0x1000) && o != ol implies #[trigger] used_tile(d6, o + 0x1000) by {
        assert(used_tile(s3.data, o + 0x1000));
        assert(!seq![ol].contains(o)) by {
            if seq![ol].contains(o) {
                assert(seq![ol][0] == o);
            }
        }
        assert(used_tile(d4, o + 0x1000));
        assert(is_tile(d5, o + 0x1000));
    }
}

} // verus!

verus! {

/// What the append path of a value write leaves, in the terms the apartness
/// of the key node's value cells speaks of.
#[verifier::spinoff_prover]
#[verifier::rlimit(60)]
proof fn lemma_append_state(
    h0: HiveView,
    s2: Seq<u8>,
    s3: HiveView,
    s4: HiveView,
    s6: HiveView,
    nk_off: u32,
    nk: KeyNodeView,
    ex: Seq<u32>,
    v_off: u32,
    vk: crate::cell::ValueNodeView,
    l_off: u32,
    name: Seq<char>,
)
    requires
        write_ready(h0, s2, nk_off, nk, ex, v_off, vk, name),
        append_facts(s2, s3.data, s4.data, s6.data, nk_off, nk, ex, v_off, vk, l_off, name),
        tiled(s3.data, s3.header.hive_bins_size),
        nk.value_list_offset != 0 && nk.value_list_offset != FREE ==> frees_keep_tiles(
            s3,
            s4,
            seq![nk.value_list_offset],
        ),
        !(nk.value_list_offset != 0 && nk.value_list_offset != FREE) ==> s4 == s3,
        s6.header == s4.header,
    ensures
        tiled(s6.data, s6.header.hive_bins_size),
        key_node_at(h0.data, nk_off) == Ok::<KeyNodeView, RegError>(nk),
        value_list(h0.data, nk.value_list_offset, nk.value_count) == Ok::<Seq<u32>, RegError>(ex),
        key_node_at(s6.data, nk_off) == Ok::<KeyNodeView, RegError>(
            KeyNodeView { value_list_offset: l_off, value_count: (ex.len() + 1) as u32, ..nk },
        ),
        value_list(s6.data, l_off, (ex.len() + 1) as u32) == Ok::<Seq<u32>, RegError>(ex.push(v_off)),
        forall|j: int|
            0 <= j < ex.len() ==> #[trigger] value_node_at(s6.data, ex[j]) == value_node_at(h0.data, ex[j])
                && value_node_apart(h0.data, ex, j, nk_off, nk.value_list_offset),
        value_node_at(s6.data, v_off) == Ok::<crate::cell::ValueNodeView, RegError>(vk),
        forall|o: u32|
            used_tile(h0.data, o + 0x1000) && o != nk.value_list_offset ==> #[trigger] used_tile(
                s6.data,
                o + 0x1000,
            ),
        used_tile(s6.data, nk_off + 0x1000),
        used_tile(s6.data, l_off + 0x1000),
        !used_tile(h0.data, l_off + 0x1000),
        !used_tile(s2, l_off + 0x1000),
        l_off != nk_off,
        used_tile(s6.data, v_off + 0x1000),
        !used_tile(h0.data, v_off + 0x1000),
        used_tile(s2, v_off + 0x1000),
        v_off != nk_off,
        v_off != l_off,
        data_in_cell(vk) ==> used_tile(s6.data, vk.data_offset + 0x1000) && !used_tile(
            h0.data,
            vk.data_offset + 0x1000,
        ) && vk.data_offset != v_off && vk.data_offset != nk_off && vk.data_offset != l_off,
        entries_apart(h0.data, ex),
{
    let d0 = h0.data;
    let d6 = s6.data;
    let ol = nk.value_list_offset;
    let n = ex.len();
    lemma_write_ready(h0, s2, nk_off, nk, ex, v_off, vk, name);
    assert(entries_apart(d0, ex)) by {
        reveal(value_cells_apart);
    }
    lemma_append_export(s2, s3.data, s4.data, d6, nk_off, nk, ex, v_off, vk, l_off, name);
    lemma_append_tiles(s2, s3, s4, s6, nk_off, nk, ex, v_off, vk, l_off, name);
    if ol != 0 && ol != FREE {
        lemma_used_kept(s2, s3.data, ol);
    }
    crate::tiling::lemma_tile_bounds(s2, nk_off + 0x1000);
    assert(nk_off != ol);
    lemma_append_key(s2, s3.data, s4.data, d6, nk_off, nk, l_off, (n + 1) as u32);
    lemma_append_list(s2, s3.data, s4.data, d6, nk_off, nk, ex, v_off, vk, l_off, name);
    lemma_append_nodes(s2, s3.data, s4.data, d6, nk_off, nk, ex, v_off, vk, l_off, name);
    assert forall|j: int| 0 <= j < n implies #[trigger] value_node_at(d6, ex[j]) == value_node_at(d0, ex[j])
        && value_node_apart(d0, ex, j, nk_off, ol) by {
        lemma_append_kept(s2, s3.data, s4.data, d6, nk_off, nk, ex, v_off, vk, l_off, name, ex[j]);
        lemma_apart_node(h0, nk_off, nk, ex, j);
    }
    assert forall|o: u32| used_tile(d0, o + 0x1000) && o != ol implies #[trigger] used_tile(d6, o + 0x1000) by {
        assert(used_tile(s2, o + 0x1000));
    }
    if used_tile(d0, l_off + 0x1000) {
        assert(used_tile(s2, l_off + 0x1000));
    }
    if data_in_cell(vk) {
        assert(used_tile(s2, vk.data_offset + 0x1000));
        assert(vk.data_offset != ol);
    }
}

/// After the append path of a value write, the key node's value cells are
/// again apart, and every allocated cell that was no value cell of it is
/// still allocated and still no value cell of it.
#[verifier::spinoff_prover]
#[verifier::rlimit(60)]
proof fn lemma_append_apart(
    h0: HiveView,
    s6: HiveView,
    nk_off: u32,
    nk: KeyNodeView,
    ex: Seq<u32>,
    v_off: u32,
    vk: crate::cell::ValueNodeView,
    l_off: u32,
)
    requires
        tiled(s6.data, s6.header.hive_bins_size),
        key_node_at(h0.data, nk_off) == Ok::<KeyNodeView, RegError>(nk),
        value_list(h0.data, nk.value_list_offset, nk.value_count) == Ok::<Seq<u32>, RegError>(ex),
        key_node_at(s6.data, nk_off) == Ok::<KeyNodeView, RegError>(
            KeyNodeView { value_list_offset: l_off, value_count: (ex.len() + 1) as u32, ..nk },
        ),
        value_list(s6.data, l_off, (ex.len() + 1) as u32) == Ok::<Seq<u32>, RegError>(ex.push(v_off)),
        forall|j: int|
            0 <= j < ex.len() ==> #[trigger] value_node_at(s6.data, ex[j]) == value_node_at(h0.data, ex[j])
                && value_node_apart(h0.data, ex, j, nk_off, nk.value_list_offset),
        value_node_at(s6.data, v_off) == Ok::<crate::cell::ValueNodeView, RegError>(vk),
        forall|o: u32|
            used_tile(h0.data, o + 0x1000) && o != nk.value_list_offset ==> #[trigger] used_tile(
                s6.data,
                o + 0x1000,
            ),
        used_tile(s6.data, nk_off + 0x1000),
        used_tile(s6.data, l_off + 0x1000),
        !used_tile(h0.data, l_off + 0x1000),
        l_off != nk_off,
        used_tile(s6.data, v_off + 0x1000),
        !used_tile(h0.data, v_off + 0x1000),
        v_off != nk_off,
        v_off != l_off,
        data_in_cell(vk) ==> used_tile(s6.data, vk.data_offset + 0x1000) && !used_tile(
            h0.data,
            vk.data_offset + 0x1000,
        ) && vk.data_offset != v_off && vk.data_offset != nk_off && vk.data_offset != l_off,
        entries_apart(h0.data, ex),
    ensures
        value_cells_apart(s6, nk_off),
        forall|o: u32|
            used_tile(h0.data, o + 0x1000) && !value_cell(h0.data, nk_off, o) ==> #[trigger] used_tile(
                s6.data,
                o + 0x1000,
            ) && !value_cell(s6.data, nk_off, o),
{
    let d0 = h0.data;
    let d6 = s6.data;
    let ol = nk.value_list_offset;
    let n = ex.len();
    let list = ex.push(v_off);
    reveal(value_cells_apart);
    assert forall|j: int| 0 <= j < list.len() implies #[trigger] value_node_apart(d6, list, j, nk_off, l_off) by {
        if j < n {
            assert(list[j] == ex[j]);
            assert(value_node_at(d6, ex[j]) == value_node_at(d0, ex[j]));
            assert(value_node_apart(d0, ex, j, nk_off, ol));
            assert(used_tile(d6, ex[j] + 0x1000));
            match value_node_at(d0, ex[j]) {
                Ok(vj) => {
                    if data_in_cell(vj) {
                        assert(used_tile(d6, vj.data_offset + 0x1000));
                        assert forall|k: int| 0 <= k < list.len() implies #[trigger] list[k] != vj.data_offset by {
                            if k < n {
                                assert(list[k] == ex[k]);
                            }
                        }
                    }
                },
                Err(_) => {},
            }
        } else {
            assert(list[j] == v_off);
            if data_in_cell(vk) {
                assert forall|k: int| 0 <= k < list.len() implies #[trigger] list[k] != vk.data_offset by {
                    if k < n {
                        assert(list[k] == ex[k]);
                        assert(value_node_at(d6, ex[k]) == value_node_at(d0, ex[k]));
                        assert(value_node_apart(d0, ex, k, nk_off, ol));
                    }
                }
            }
        }
    }
    assert forall|j: int, k: int|
        0 <= j < list.len() && 0 <= k < list.len() && j != k implies #[trigger] list[j] != #[trigger] list[k]
        && data_apart(d6, list[j], list[k]) by {
        if j < n {
            assert(list[j] == ex[j]);
            assert(value_node_at(d6, ex[j]) == value_node_at(d0, ex[j]));
            assert(value_node_apart(d0, ex, j, nk_off, ol));
        }
        if k < n {
            assert(list[k] == ex[k]);
            assert(value_node_at(d6, ex[k]) == value_node_at(d0, ex[k]));
            assert(value_node_apart(d0, ex, k, nk_off, ol));
        }
        if j < n && k < n {
            assert(ex[j] != ex[k] && data_apart(d0, ex[j], ex[k]));
        }
    }
    assert(entries_apart(d6, list));
    assert forall|o: u32| used_tile(d0, o + 0x1000) && !value_cell(d0, nk_off, o) implies #[trigger] used_tile(
        d6,
        o + 0x1000,
    ) && !value_cell(d6, nk_off, o) by {
        assert(o != ol);
        if value_cell(d6, nk_off, o) {
            let j = choose|j: int| 0 <= j < list.len() && (list[j] == o || (#[trigger] value_node_at(d6, list[j]) matches Ok(
                vj,
            ) && data_in_cell(vj) && vj.data_offset == o));
            if j < n {
                assert(list[j] == ex[j]);
                assert(value_node_at(d6, ex[j]) == value_node_at(d0, ex[j]));
                assert(value_cell(d0, nk_off, o));
            } else {
                assert(list[j] == v_off);
            }
        }
    }
}

} // verus!

verus! {

/// After the replace path of a value write, the key node reads as before
/// and its value list holds the new node in place of the old one.
#[verifier::spinoff_prover]
proof fn lemma_replace_listing(
    h0: HiveView,
    s2: Seq<u8>,
    s3: Seq<u8>,
    s4: Seq<u8>,
    s5: Seq<u8>,
    nk_off: u32,
    nk: KeyNodeView,
    ex: Seq<u32>,
    i: int,
    ovk: crate::cell::ValueNodeView,
    v_off: u32,
    vk: crate::cell::ValueNodeView,
    name: Seq<char>,
)
    requires
        write_ready(h0, s2, nk_off, nk, ex, v_off, vk, name),
        replace_facts(s2, s3, s4, s5, nk_off, nk, ex, i, ovk, v_off, vk, name),
    ensures
        key_node_at(s5, nk_off) == Ok::<KeyNodeView, RegError>(nk),
        value_list(s5, nk.value_list_offset, nk.value_count) == Ok::<Seq<u32>, RegError>(
            ex.update(i, v_off),
        ),
{
    lemma_write_ready(h0, s2, nk_off, nk, ex, v_off, vk, name);
    lemma_replace_export(s2, s3, s4, s5, nk_off, nk, ex, i, ovk, v_off, vk, name);
    lemma_apart_key(h0, nk_off, nk);
    lemma_apart_node(h0, nk_off, nk, ex, i);
    assert(value_node_at(h0.data, ex[i]) == Ok::<crate::cell::ValueNodeView, RegError>(ovk)) by {
        assert(value_node_at(s2, ex[i]) == value_node_at(h0.data, ex[i]));
    }
    lemma_used_kept(h0.data, s2, nk_off);
    lemma_replace_kept(s2, s3, s4, s5, nk_off, nk, ex, i, ovk, v_off, vk, name, nk_off);
    lemma_replace_list(s2, s3, s4, s5, nk_off, nk, ex, i, ovk, v_off, vk, name);
}

/// After the append path of a value write, the key node lists the old
/// entries and the new node, and counts them.
#[verifier::spinoff_prover]
proof fn lemma_append_listing(
    h0: HiveView,
    s2: Seq<u8>,
    s3: Seq<u8>,
    s4: Seq<u8>,
    s6: Seq<u8>,
    nk_off: u32,
    nk: KeyNodeView,
    ex: Seq<u32>,
    v_off: u32,
    vk: crate::cell::ValueNodeView,
    l_off: u32,
    name: Seq<char>,
)
    requires
        write_ready(h0, s2, nk_off, nk, ex, v_off, vk, name),
        append_facts(s2, s3, s4, s6, nk_off, nk, ex, v_off, vk, l_off, name),
    ensures
        key_node_at(s6, nk_off) == Ok::<KeyNodeView, RegError>(
            KeyNodeView { value_list_offset: l_off, value_count: (ex.len() + 1) as u32, ..nk },
        ),
        value_list(s6, l_off, (ex.len() + 1) as u32) == Ok::<Seq<u32>, RegError>(ex.push(v_off)),
{
    lemma_write_ready(h0, s2, nk_off, nk, ex, v_off, vk, name);
    lemma_append_export(s2, s3, s4, s6, nk_off, nk, ex, v_off, vk, l_off, name);
    lemma_apart_key(h0, nk_off, nk);
    let ol = nk.value_list_offset;
    if ol != 0 && ol != FREE {
        lemma_used_kept(s2, s3, ol);
    }
    crate::tiling::lemma_tile_bounds(s2, nk_off + 0x1000);
    assert(nk_off != ol);
    lemma_append_key(s2, s3, s4, s6, nk_off, nk, l_off, (ex.len() + 1) as u32);
    lemma_append_list(s2, s3, s4, s6, nk_off, nk, ex, v_off, vk, l_off, name);
}

/// After the append path of a value write, the key node's value cells are
/// apart again, and a path that read none of them reads none of them.
#[verifier::spinoff_prover]
proof fn lemma_append_keeps_apart(
    h0: HiveView,
    s2: Seq<u8>,
    s3: HiveView,
    s4: HiveView,
    s6: HiveView,
    path: Seq<char>,
    nk_off: u32,
    nk: KeyNodeView,
    ex: Seq<u32>,
    v_off: u32,
    vk: crate::cell::ValueNodeView,
    l_off: u32,
    name: Seq<char>,
)
    requires
        write_ready(h0, s2, nk_off, nk, ex, v_off, vk, name),
        append_facts(s2, s3.data, s4.data, s6.data, nk_off, nk, ex, v_off, vk, l_off, name),
        tiled(s3.data, s3.header.hive_bins_size),
        nk.value_list_offset != 0 && nk.value_list_offset != FREE ==> frees_keep_tiles(
            s3,
            s4,
            seq![nk.value_list_offset],
        ),
        !(nk.value_list_offset != 0 && nk.value_list_offset != FREE) ==> s4 == s3,
        s6.header == s4.header,
        s6.header.root_cell_offset == h0.header.root_cell_offset,
        keeps_other_cells(h0.data, s6.data, nk_off),
        key_same(h0.data, s6.data, nk_off),
    ensures
        value_cells_apart(s6, nk_off),
        path_apart(h0, path, nk_off) ==> path_apart(s6, path, nk_off),
        forall|j: int|
            0 <= j < ex.len() ==> #[trigger] value_node_at(s6.data, ex[j]) == value_node_at(h0.data, ex[j]),
        value_node_at(s6.data, v_off) == Ok::<crate::cell::ValueNodeView, RegError>(vk),
{
    lemma_append_state(h0, s2, s3, s4, s6, nk_off, nk, ex, v_off, vk, l_off, name);
    lemma_append_apart(h0, s6, nk_off, nk, ex, v_off, vk, l_off);
    if path_apart(h0, path, nk_off) {
        lemma_path_apart_kept(h0, s6, path, nk_off);
    }
}

} // verus!

verus! {

/// What the replace path of a value write leaves, in the terms the
/// apartness of the key node's value cells speaks of.
#[verifier::spinoff_prover]
#[verifier::rlimit(80)]
proof fn lemma_replace_state(
    h0: HiveView,
    s2: HiveView,
    s3: HiveView,
    s4: HiveView,
    s5: HiveView,
    nk_off: u32,
    nk: KeyNodeView,
    ex: Seq<u32>,
    i: int,
    ovk: crate::cell::ValueNodeView,
    v_off: u32,
    vk: crate::cell::ValueNodeView,
    name: Seq<char>,
)
    requires
        write_ready(h0, s2.data, nk_off, nk, ex, v_off, vk, name),
        replace_facts(s2.data, s3.data, s4.data, s5.data, nk_off, nk, ex, i, ovk, v_off, vk, name),
        tiled(s2.data, s2.header.hive_bins_size),
        s3.header == s2.header,
        s4.header == s3.header,
        s5.data.len() <= 0x8000_0000,
        data_in_cell(ovk) && tiled(s3.data, s3.header.hive_bins_size) && used_tile(
            s3.data,
            ovk.data_offset + 0x1000,
        ) && s3.data.len() <= 0x8000_0000 ==> frees_keep_tiles(s3, s4, seq![ovk.data_offset]),
        !data_in_cell(ovk) ==> s4 == s3,
        tiled(s4.data, s4.header.hive_bins_size) && used_tile(s4.data, ex[i] + 0x1000)
            && s4.data.len() <= 0x8000_0000 ==> frees_keep_tiles(s4, s5, seq![ex[i]]),
    ensures
        tiled(s5.data, s5.header.hive_bins_size),
        value_cells_apart(h0, nk_off),
        key_node_at(h0.data, nk_off) == Ok::<KeyNodeView, RegError>(nk),
        value_list(h0.data, nk.value_list_offset, nk.value_count) == Ok::<Seq<u32>, RegError>(ex),
        key_node_at(s5.data, nk_off) == Ok::<KeyNodeView, RegError>(nk),
        value_list(s5.data, nk.value_list_offset, nk.value_count) == Ok::<Seq<u32>, RegError>(
            ex.update(i, v_off),
        ),
        0 <= i < ex.len(),
        nk.value_list_offset != 0 && nk.value_list_offset != FREE,
        value_node_at(h0.data, ex[i]) == Ok::<crate::cell::ValueNodeView, RegError>(ovk),
        forall|j: int|
            0 <= j < ex.len() && j != i ==> #[trigger] value_node_at(s5.data, ex[j]) == value_node_at(
                h0.data,
                ex[j],
            ),
        forall|j: int|
            0 <= j < ex.len() ==> #[trigger] value_node_apart(h0.data, ex, j, nk_off, nk.value_list_offset),
        value_node_at(s5.data, v_off) == Ok::<crate::cell::ValueNodeView, RegError>(vk),
        forall|o: u32|
            used_tile(h0.data, o + 0x1000) && o != ex[i] && !(data_in_cell(ovk) && o == ovk.data_offset)
                ==> #[trigger] used_tile(s5.data, o + 0x1000),
        used_tile(s5.data, v_off + 0x1000),
        !used_tile(h0.data, v_off + 0x1000),
        data_in_cell(vk) ==> used_tile(s5.data, vk.data_offset + 0x1000) && !used_tile(
            h0.data,
            vk.data_offset + 0x1000,
        ) && vk.data_offset != v_off,
        entries_apart(h0.data, ex),
        used_tile(s5.data, nk_off + 0x1000),
{
    let d0 = h0.data;
    let d2 = s2.data;
    let d3 = s3.data;
    let d4 = s4.data;
    let d5 = s5.data;
    let ol = nk.value_list_offset;
    let e = ex[i];
    let od = ovk.data_offset;
    lemma_write_ready(h0, d2, nk_off, nk, ex, v_off, vk, name);
    assert(entries_apart(d0, ex)) by {
        reveal(value_cells_apart);
    }
    lemma_replace_export(d2, d3, d4, d5, nk_off, nk, ex, i, ovk, v_off, vk, name);
    assert(value_node_at(d0, e) == Ok::<crate::cell::ValueNodeView, RegError>(ovk)) by {
        assert(value_node_at(d2, ex[i]) == value_node_at(d0, ex[i]));
    }
    let (a, b) = crate::hbin::payload_range(d2, ol).unwrap();
    crate::tiling::lemma_tile_bounds(d2, ol + 0x1000);
    crate::bytes::lemma_put_u32(d2, a + 4 * i, v_off);
    crate::tiling::lemma_write_in_tile(d2, d3, ol + 0x1000, a + 4 * i, a + 4 * i + 4);
    assert(tiled(d3, s3.header.hive_bins_size));
    assert forall|x: u32| used_tile(d2, x + 0x1000) implies #[trigger] used_tile(d3, x + 0x1000) by {
        assert(is_tile(d2, x + 0x1000));
    }
    if data_in_cell(ovk) {
        assert(used_tile(d3, od + 0x1000));
    }
    assert(tiled(d4, s4.header.hive_bins_size));
    assert(used_tile(d4, e + 0x1000)) by {
        assert(used_tile(d3, e + 0x1000));
        if data_in_cell(ovk) {
            assert(!seq![od].contains(e)) by {
                if seq![od].contains(e) {
                    assert(seq![od][0] == od);
                }
            }
        }
    }
    assert forall|o: u32|
        used_tile(d2, o + 0x1000) && o != e && !(data_in_cell(ovk) && o == od) implies #[trigger] used_tile(
        d5,
        o + 0x1000,
    ) by {
        assert(used_tile(d3, o + 0x1000));
        if data_in_cell(ovk) {
            assert(!seq![od].contains(o)) by {
                if seq![od].contains(o) {
                    assert(seq![od][0] == od);
                }
            }
        }
        assert(used_tile(d4, o + 0x1000));
        assert(!seq![e].contains(o)) by {
            if seq![e].contains(o) {
                assert(seq![e][0] == e);
            }
        }
    }
    assert forall|o: u32|
        used_tile(d0, o + 0x1000) && o != e && !(data_in_cell(ovk) && o == od) implies #[trigger] used_tile(
        d5,
        o + 0x1000,
    ) by {
        assert(used_tile(d2, o + 0x1000));
    }
    assert(used_tile(d5, v_off + 0x1000));
    if data_in_cell(vk) {
        assert(used_tile(d5, vk.data_offset + 0x1000));
    }
    assert(used_tile(d5, nk_off + 0x1000)) by {
        assert(used_tile(d2, nk_off + 0x1000));
    }
    lemma_replace_kept(d2, d3, d4, d5, nk_off, nk, ex, i, ovk, v_off, vk, name, nk_off);
    lemma_replace_list(d2, d3, d4, d5, nk_off, nk, ex, i, ovk, v_off, vk, name);
    lemma_replace_kept(d2, d3, d4, d5, nk_off, nk, ex, i, ovk, v_off, vk, name, v_off);
    lemma_apart_node(h0, nk_off, nk, ex, i);
    assert forall|j: int| 0 <= j < ex.len() implies #[trigger] value_node_apart(d0, ex, j, nk_off, ol) by {
        lemma_apart_node(h0, nk_off, nk, ex, j);
    }
    assert forall|j: int| 0 <= j < ex.len() && j != i implies #[trigger] value_node_at(d5, ex[j])
        == value_node_at(d0, ex[j]) by {
        lemma_apart_node(h0, nk_off, nk, ex, j);
        assert(ex[j] != e);
        assert(used_tile(d2, ex[j] + 0x1000));
        lemma_replace_kept(d2, d3, d4, d5, nk_off, nk, ex, i, ovk, v_off, vk, name, ex[j]);
    }
}

/// After the replace path of a value write, the key node's value cells are
/// again apart, and every allocated cell that was no value cell of it is
/// still allocated and still no value cell of it.
#[verifier::spinoff_prover]
#[verifier::rlimit(80)]
proof fn lemma_replace_apart(
    h0: HiveView,
    s5: HiveView,
    nk_off: u32,
    nk: KeyNodeView,
    ex: Seq<u32>,
    i: int,
    ovk: crate::cell::ValueNodeView,
    v_off: u32,
    vk: crate::cell::ValueNodeView,
)
    requires
        tiled(s5.data, s5.header.hive_bins_size),
        value_cells_apart(h0, nk_off),
        key_node_at(h0.data, nk_off) == Ok::<KeyNodeView, RegError>(nk),
        value_list(h0.data, nk.value_list_offset, nk.value_count) == Ok::<Seq<u32>, RegError>(ex),
        key_node_at(s5.data, nk_off) == Ok::<KeyNodeView, RegError>(nk),
        value_list(s5.data, nk.value_list_offset, nk.value_count) == Ok::<Seq<u32>, RegError>(
            ex.update(i, v_off),
        ),
        0 <= i < ex.len(),
        nk.value_list_offset != 0 && nk.value_list_offset != FREE,
        value_node_at(h0.data, ex[i]) == Ok::<crate::cell::ValueNodeView, RegError>(ovk),
        forall|j: int|
            0 <= j < ex.len() && j != i ==> #[trigger] value_node_at(s5.data, ex[j]) == value_node_at(
                h0.data,
                ex[j],
            ),
        forall|j: int|
            0 <= j < ex.len() ==> #[trigger] value_node_apart(h0.data, ex, j, nk_off, nk.value_list_offset),
        value_node_at(s5.data, v_off) == Ok::<crate::cell::ValueNodeView, RegError>(vk),
        forall|o: u32|
            used_tile(h0.data, o + 0x1000) && o != ex[i] && !(data_in_cell(ovk) && o == ovk.data_offset)
                ==> #[trigger] used_tile(s5.data, o + 0x1000),
        used_tile(s5.data, v_off + 0x1000),
        !used_tile(h0.data, v_off + 0x1000),
        data_in_cell(vk) ==> used_tile(s5.data, vk.data_offset + 0x1000) && !used_tile(
            h0.data,
            vk.data_offset + 0x1000,
        ) && vk.data_offset != v_off,
        entries_apart(h0.data, ex),
    ensures
        value_cells_apart(s5, nk_off),
        forall|o: u32|
            used_tile(h0.data, o + 0x1000) && !value_cell(h0.data, nk_off, o) ==> #[trigger] used_tile(
                s5.data,
                o + 0x1000,
            ) && !value_cell(s5.data, nk_off, o),
{
    let d0 = h0.data;
    let d5 = s5.data;
    let ol = nk.value_list_offset;
    let n = ex.len();
    let e = ex[i];
    let od = ovk.data_offset;
    let list = ex.update(i, v_off);
    lemma_apart_key(h0, nk_off, nk);
    assert(value_node_apart(d0, ex, i, nk_off, ol));
    assert(used_tile(d5, nk_off + 0x1000));
    assert(used_tile(d5, ol + 0x1000));
    reveal(value_cells_apart);
    assert forall|j: int| 0 <= j < list.len() implies #[trigger] value_node_apart(d5, list, j, nk_off, ol) by {
        if j != i {
            assert(list[j] == ex[j]);
            assert(value_node_at(d5, ex[j]) == value_node_at(d0, ex[j]));
            assert(value_node_apart(d0, ex, j, nk_off, ol));
            assert(ex[j] != e);
            if data_in_cell(ovk) {
                assert(ex[j] != od);
            }
            assert(used_tile(d5, ex[j] + 0x1000));
            match value_node_at(d0, ex[j]) {
                Ok(vj) => {
                    if data_in_cell(vj) {
                        assert(vj.data_offset != e);
                        assert(data_apart(d0, ex[j], ex[i]));
                        assert(used_tile(d5, vj.data_offset + 0x1000));
                        assert forall|k: int| 0 <= k < list.len() implies #[trigger] list[k] != vj.data_offset by {
                            if k != i {
                                assert(list[k] == ex[k]);
                            }
                        }
                    }
                },
                Err(_) => {},
            }
        } else {
            assert(list[j] == v_off);
            if data_in_cell(vk) {
                assert forall|k: int| 0 <= k < list.len() implies #[trigger] list[k] != vk.data_offset by {
                    if k != i {
                        assert(list[k] == ex[k]);
                        assert(value_node_apart(d0, ex, k, nk_off, ol));
                    }
                }
            }
        }
    }
    assert forall|j: int, k: int|
        0 <= j < list.len() && 0 <= k < list.len() && j != k implies #[trigger] list[j] != #[trigger] list[k]
        && data_apart(d5, list[j], list[k]) by {
        if j != i {
            assert(list[j] == ex[j]);
            assert(value_node_at(d5, ex[j]) == value_node_at(d0, ex[j]));
            assert(value_node_apart(d0, ex, j, nk_off, ol));
        }
        if k != i {
            assert(list[k] == ex[k]);
            assert(value_node_at(d5, ex[k]) == value_node_at(d0, ex[k]));
            assert(value_node_apart(d0, ex, k, nk_off, ol));
        }
        if j != i && k != i {
            assert(ex[j] != ex[k] && data_apart(d0, ex[j], ex[k]));
        }
    }
    assert(entries_apart(d5, list));
    assert forall|o: u32| used_tile(d0, o + 0x1000) && !value_cell(d0, nk_off, o) implies #[trigger] used_tile(
        d5,
        o + 0x1000,
    ) && !value_cell(d5, nk_off, o) by {
        assert(o != ol);
        assert(o != e) by {
            if o == e {
                assert(value_node_at(d0, ex[i]) == Ok::<crate::cell::ValueNodeView, RegError>(ovk));
                assert(ex[i] == o);
            }
        }
        if data_in_cell(ovk) {
            assert(o != od) by {
                if o == od {
                    assert(value_node_at(d0, ex[i]) == Ok::<crate::cell::ValueNodeView, RegError>(ovk));
                }
            }
        }
        assert(used_tile(d5, o + 0x1000));
        if value_cell(d5, nk_off, o) {
            let j = choose|j: int| 0 <= j < list.len() && (list[j] == o || (#[trigger] value_node_at(d5, list[j]) matches Ok(
                vj,
            ) && data_in_cell(vj) && vj.data_offset == o));
            if j != i {
                assert(list[j] == ex[j]);
                assert(value_node_at(d5, ex[j]) == value_node_at(d0, ex[j]));
                assert(value_cell(d0, nk_off, o));
            } else {
                assert(list[j] == v_off);
            }
        }
    }
}

/// After the replace path of a value write, the key node's value cells are
/// apart again, and a path that read none of them reads none of them.
#[verifier::spinoff_prover]
proof fn lemma_replace_keeps_apart(
    h0: HiveView,
    s2: HiveView,
    s3: HiveView,
    s4: HiveView,
    s5: HiveView,
    path: Seq<char>,
    nk_off: u32,
    nk: KeyNodeView,
    ex: Seq<u32>,
    i: int,
    ovk: crate::cell::ValueNodeView,
    v_off: u32,
    vk: crate::cell::ValueNodeView,
    name: Seq<char>,
)
    requires
        write_ready(h0, s2.data, nk_off, nk, ex, v_off, vk, name),
        replace_facts(s2.data, s3.data, s4.data, s5.data, nk_off, nk, ex, i, ovk, v_off, vk, name),
        tiled(s2.data, s2.header.hive_bins_size),
        s3.header == s2.header,
        s4.header == s3.header,
        s5.data.len() <= 0x8000_0000,
        data_in_cell(ovk) && tiled(s3.data, s3.header.hive_bins_size) && used_tile(
            s3.data,
            ovk.data_offset + 0x1000,
        ) && s3.data.len() <= 0x8000_0000 ==> frees_keep_tiles(s3, s4, seq![ovk.data_offset]),
        !data_in_cell(ovk) ==> s4 == s3,
        tiled(s4.data, s4.header.hive_bins_size) && used_tile(s4.data, ex[i] + 0x1000)
            && s4.data.len() <= 0x8000_0000 ==> frees_keep_tiles(s4, s5, seq![ex[i]]),
        s5.header.root_cell_offset == h0.header.root_cell_offset,
        keeps_other_cells(h0.data, s5.data, nk_off),
        key_same(h0.data, s5.data, nk_off),
    ensures
        value_cells_apart(s5, nk_off),
        path_apart(h0, path, nk_off) ==> path_apart(s5, path, nk_off),
        forall|j: int|
            0 <= j < ex.len() && j != i ==> #[trigger] value_node_at(s5.data, ex[j]) == value_node_at(
                h0.data,
                ex[j],
            ),
        value_node_at(s5.data, v_off) == Ok::<crate::cell::ValueNodeView, RegError>(vk),
{
    lemma_replace_state(h0, s2, s3, s4, s5, nk_off, nk, ex, i, ovk, v_off, vk, name);
    lemma_replace_apart(h0, s5, nk_off, nk, ex, i, ovk, v_off, vk);
    if path_apart(h0, path, nk_off) {
        lemma_path_apart_kept(h0, s5, path, nk_off);
    }
}

} // verus!

verus! {

/// The three frees of the delete keep the tiling and every other
/// allocated cell.
#[verifier::spinoff_prover]
proof fn lemma_delete_frees(
    s3: HiveView,
    s4: HiveView,
    s5: HiveView,
    s6: HiveView,
    ol: u32,
    od: u32,
    ev: u32,
    freed_ol: bool,
    freed_od: bool,
)
    requires
        tiled(s3.data, s3.header.hive_bins_size),
        s4.header == s3.header,
        s5.header == s4.header,
        s6.data.len() <= 0x8000_0000,
        s4.data.len() == s3.data.len(),
        s5.data.len() == s4.data.len(),
        s6.data.len() == s5.data.len(),
        freed_ol ==> used_tile(s3.data, ol + 0x1000),
        freed_od ==> used_tile(s3.data, od + 0x1000) && od != ol,
        used_tile(s3.data, ev + 0x1000),
        ev != ol,
        freed_od ==> ev != od,
        freed_ol && tiled(s3.data, s3.header.hive_bins_size) && used_tile(s3.data, ol + 0x1000)
            && s3.data.len() <= 0x8000_0000 ==> frees_keep_tiles(s3, s4, seq![ol]),
        !freed_ol ==> s4 == s3,
        freed_od && tiled(s4.data, s4.header.hive_bins_size) && used_tile(s4.data, od + 0x1000)
            && s4.data.len() <= 0x8000_0000 ==> frees_keep_tiles(s4, s5, seq![od]),
        !freed_od ==> s5 == s4,
        tiled(s5.data, s5.header.hive_bins_size) && used_tile(s5.data, ev + 0x1000)
            && s5.data.len() <= 0x8000_0000 ==> frees_keep_tiles(s5, s6, seq![ev]),
    ensures
        tiled(s6.data, s6.header.hive_bins_size),
        forall|o: u32|
            used_tile(s3.data, o + 0x1000) && o != ol && o != ev && !(freed_od && o == od)
                ==> #[trigger] used_tile(s6.data, o + 0x1000) && crate::tiling::size_at(
                s6.data,
                o + 0x1000,
            ) == crate::tiling::size_at(s3.data, o + 0x1000),
{
    let d3 = s3.data;
    let d4 = s4.data;
    let d5 = s5.data;
    let d6 = s6.data;
    assert(tiled(d4, s4.header.hive_bins_size));
    assert forall|o: u32| used_tile(d3, o + 0x1000) && o != ol implies #[trigger] used_tile(d4, o + 0x1000)
        && crate::tiling::size_at(d4, o + 0x1000) == crate::tiling::size_at(d3, o + 0x1000) by {
        if freed_ol {
            assert(!seq![ol].contains(o)) by {
                if seq![ol].contains(o) {
                    assert(seq![ol][0] == ol);
                }
            }
        }
    }
    if freed_od {
        assert(used_tile(d4, od + 0x1000));
    }
    assert(tiled(d5, s5.header.hive_bins_size));
    assert forall|o: u32| used_tile(d4, o + 0x1000) && !(freed_od && o == od) implies #[trigger] used_tile(
        d5,
        o + 0x1000,
    ) && crate::tiling::size_at(d5, o + 0x1000) == crate::tiling::size_at(d4, o + 0x1000) by {
        if freed_od {
            assert(!seq![od].contains(o)) by {
                if seq![od].contains(o) {
                    assert(seq![od][0] == od);
                }
            }
        }
    }
    assert(used_tile(d4, ev + 0x1000));
    assert(used_tile(d5, ev + 0x1000));
    assert forall|o: u32| used_tile(d5, o + 0x1000) && o != ev implies #[trigger] used_tile(d6, o + 0x1000)
        && crate::tiling::size_at(d6, o + 0x1000) == crate::tiling::size_at(d5, o + 0x1000) by {
        assert(!seq![ev].contains(o)) by {
            if seq![ev].contains(o) {
                assert(seq![ev][0] == ev);
            }
        }
    }
    assert forall|o: u32|
        used_tile(d3, o + 0x1000) && o != ol && o != ev && !(freed_od && o == od) implies #[trigger] used_tile(
        d6,
        o + 0x1000,
    ) && crate::tiling::size_at(d6, o + 0x1000) == crate::tiling::size_at(d3, o + 0x1000) by {
        assert(used_tile(d4, o + 0x1000));
        assert(used_tile(d5, o + 0x1000));
    }
}

/// Writing the value list and count fields of an allocated key node keeps
/// the tiling and every allocated cell.
proof fn lemma_nk_fields_tiles(d6: Seq<u8>, d8: Seq<u8>, hbs: u32, nk_off: u32, l_off: u32, count: u32)
    requires
        tiled(d6, hbs),
        used_tile(d6, nk_off + 0x1000),
        crate::hbin::payload_range(d6, nk_off) matches Ok((x, y)) && y - x >= 76 && x == nk_off + 0x1004,
        d8 == crate::bytes::put_u32(
            crate::bytes::put_u32(d6, nk_off + 0x1004 + 40, l_off),
            nk_off + 0x1004 + 36,
            count,
        ),
    ensures
        tiled(d8, hbs),
        forall|o: u32| used_tile(d6, o + 0x1000) ==> #[trigger] used_tile(d8, o + 0x1000),
{
    let c_nk = nk_off + 0x1000;
    let a = nk_off + 0x1004;
    let d7 = crate::bytes::put_u32(d6, a + 40, l_off);
    crate::tiling::lemma_tile_bounds(d6, c_nk);
    crate::bytes::lemma_put_u32(d6, a + 40, l_off);
    crate::tiling::lemma_write_in_tile(d6, d7, c_nk, a + 40, a + 44);
    crate::bytes::lemma_put_u32(d7, a + 36, count);
    crate::tiling::lemma_write_in_tile(d7, d8, c_nk, a + 36, a + 40);
    assert forall|o: u32| used_tile(d6, o + 0x1000) implies #[trigger] used_tile(d8, o + 0x1000) by {
        assert(is_tile(d7, o + 0x1000));
    }
}

} // verus!

verus! {

/// After the delete, the hive is still tiled, and every cell allocated
/// before it but the three it frees, and the new value list, are
/// allocated.
#[verifier::spinoff_prover]
#[verifier::rlimit(80)]
proof fn lemma_delete_used(
    h0: HiveView,
    s3: HiveView,
    s4: HiveView,
    s5: HiveView,
    s6: HiveView,
    s8: HiveView,
    nk_off: u32,
    nk: KeyNodeView,
    ex: Seq<u32>,
    kept: Seq<u32>,
    idx: Seq<int>,
    iv: int,
    ovk: crate::cell::ValueNodeView,
    l_off: u32,
    name: Seq<char>,
)
    requires
        delete_facts(h0, s3.data, s6.data, s8.data, nk_off, nk, ex, kept, idx, iv, ovk, l_off, name),
        tiled(s3.data, s3.header.hive_bins_size),
        s4.header == s3.header,
        s5.header == s4.header,
        s8.header == s6.header,
        s8.data.len() <= 0x8000_0000,
        s4.data.len() == s3.data.len(),
        s5.data.len() == s4.data.len(),
        nk.value_list_offset != 0 && nk.value_list_offset != FREE && tiled(
            s3.data,
            s3.header.hive_bins_size,
        ) && used_tile(s3.data, nk.value_list_offset + 0x1000) && s3.data.len() <= 0x8000_0000
            ==> frees_keep_tiles(s3, s4, seq![nk.value_list_offset]),
        !(nk.value_list_offset != 0 && nk.value_list_offset != FREE) ==> s4 == s3,
        data_in_cell(ovk) && tiled(s4.data, s4.header.hive_bins_size) && used_tile(
            s4.data,
            ovk.data_offset + 0x1000,
        ) && s4.data.len() <= 0x8000_0000 ==> frees_keep_tiles(s4, s5, seq![ovk.data_offset]),
        !data_in_cell(ovk) ==> s5 == s4,
        tiled(s5.data, s5.header.hive_bins_size) && used_tile(s5.data, ex[iv] + 0x1000)
            && s5.data.len() <= 0x8000_0000 ==> frees_keep_tiles(s5, s6, seq![ex[iv]]),
    ensures
        tiled(s8.data, s8.header.hive_bins_size),
        kept.len() > 0 ==> used_tile(s8.data, l_off + 0x1000) && !used_tile(h0.data, l_off + 0x1000),
        forall|o: u32|
            used_tile(h0.data, o + 0x1000) && o != nk.value_list_offset && o != ex[iv] && !(data_in_cell(
                ovk,
            ) && o == ovk.data_offset) ==> #[trigger] used_tile(s8.data, o + 0x1000),
{
    lemma_delete_export(h0, s3.data, s6.data, s8.data, nk_off, nk, ex, kept, idx, iv, ovk, l_off, name);
    let ws = lemma_delete_regions(h0, s3.data, s6.data, s8.data, nk_off, nk, ex, kept, idx, iv, ovk, l_off, name);
    lemma_apart_key(h0, nk_off, nk);
    lemma_apart_node(h0, nk_off, nk, ex, iv);
    let d0 = h0.data;
    let d3 = s3.data;
    let d6 = s6.data;
    let d8 = s8.data;
    let ol = nk.value_list_offset;
    let ev = ex[iv];
    let od = ovk.data_offset;
    let freed_ol = ol != 0 && ol != FREE;
    let freed_od = data_in_cell(ovk);
    if freed_ol {
        assert(used_tile(d3, ol + 0x1000));
    }
    if freed_od {
        assert(used_tile(d3, od + 0x1000));
    }
    assert(used_tile(d3, ev + 0x1000));
    lemma_delete_frees(s3, s4, s5, s6, ol, od, ev, freed_ol, freed_od);
    lemma_delete_nk_kept(h0, s3.data, s6.data, s8.data, nk_off, nk, ex, kept, idx, iv, ovk, l_off, name);
    lemma_cell_kept_reads(d0, d6, nk_off);
    lemma_key_node_room(d6, nk_off);
    assert(used_tile(d6, nk_off + 0x1000)) by {
        assert(used_tile(d3, nk_off + 0x1000));
    }
    lemma_nk_fields_tiles(d6, d8, s6.header.hive_bins_size, nk_off, l_off, kept.len() as u32);
    assert forall|o: u32|
        used_tile(d0, o + 0x1000) && o != ol && o != ev && !(freed_od && o == od) implies #[trigger] used_tile(
        d8,
        o + 0x1000,
    ) by {
        assert(used_tile(d3, o + 0x1000));
        assert(used_tile(d6, o + 0x1000));
    }
    if kept.len() > 0 {
        assert(used_tile(d6, l_off + 0x1000)) by {
            if l_off == ol {
                assert(used_tile(d0, ol + 0x1000));
            }
            if l_off == ev {
                assert(used_tile(d0, ev + 0x1000));
            }
            if freed_od && l_off == od {
                assert(used_tile(d0, od + 0x1000));
            }
        }
    }
}

/// The value nodes of a key node whose value cells are apart are distinct,
/// and so are their data cells.
proof fn lemma_apart_entries(h: HiveView, nk_off: u32, nk: KeyNodeView, offs: Seq<u32>)
    requires
        value_cells_apart(h, nk_off),
        key_node_at(h.data, nk_off) == Ok::<KeyNodeView, RegError>(nk),
        value_list(h.data, nk.value_list_offset, nk.value_count) == Ok::<Seq<u32>, RegError>(offs),
    ensures
        entries_apart(h.data, offs),
{
    reveal(value_cells_apart);
}

/// After the delete, the key node holds the new value list, which reads
/// as the kept value nodes.
#[verifier::spinoff_prover]
#[verifier::rlimit(60)]
proof fn lemma_delete_list(
    h0: HiveView,
    s3: Seq<u8>,
    s6: Seq<u8>,
    s8: Seq<u8>,
    nk_off: u32,
    nk: KeyNodeView,
    ex: Seq<u32>,
    kept: Seq<u32>,
    idx: Seq<int>,
    iv: int,
    ovk: crate::cell::ValueNodeView,
    l_off: u32,
    name: Seq<char>,
)
    requires
        delete_facts(h0, s3, s6, s8, nk_off, nk, ex, kept, idx, iv, ovk, l_off, name),
    ensures
        key_node_at(s8, nk_off) == Ok::<KeyNodeView, RegError>(
            KeyNodeView { value_list_offset: l_off, value_count: kept.len() as u32, ..nk },
        ),
        value_list(s8, l_off, kept.len() as u32) == Ok::<Seq<u32>, RegError>(kept),
        kept.len() == 0 ==> l_off == FREE,
{
    lemma_delete_key(h0, s3, s6, s8, nk_off, nk, ex, kept, idx, iv, ovk, l_off, name);
    lemma_delete_export(h0, s3, s6, s8, nk_off, nk, ex, kept, idx, iv, ovk, l_off, name);
    let ws = lemma_delete_regions(h0, s3, s6, s8, nk_off, nk, ex, kept, idx, iv, ovk, l_off, name);
    lemma_apart_key(h0, nk_off, nk);
    lemma_apart_node(h0, nk_off, nk, ex, iv);
    if kept.len() > 0 {
        lemma_four_writes_keep(s3, s8, ws, l_off);
        lemma_cell_kept_reads(s3, s8, l_off);
        let (x, y) = crate::hbin::payload_range(s3, l_off).unwrap();
        let p = s3.subrange(x, y);
        assert(p.subrange(0, 4 * kept.len() as int) =~= s3.subrange(x, x + 4 * kept.len()));
        crate::cell::lemma_le32_list_read(p, kept);
        crate::tiling::lemma_tile_bounds(s3, l_off + 0x1000);
    } else {
        assert(value_list(s8, l_off, 0) == Ok::<Seq<u32>, RegError>(Seq::empty()));
        assert(kept =~= Seq::<u32>::empty());
    }
}

/// After the delete, each kept value node reads as before, and none is the
/// deleted one.
#[verifier::spinoff_prover]
#[verifier::rlimit(60)]
proof fn lemma_delete_nodes(
    h0: HiveView,
    s3: Seq<u8>,
    s6: Seq<u8>,
    s8: Seq<u8>,
    nk_off: u32,
    nk: KeyNodeView,
    ex: Seq<u32>,
    kept: Seq<u32>,
    idx: Seq<int>,
    iv: int,
    ovk: crate::cell::ValueNodeView,
    l_off: u32,
    name: Seq<char>,
)
    requires
        delete_facts(h0, s3, s6, s8, nk_off, nk, ex, kept, idx, iv, ovk, l_off, name),
    ensures
        forall|k: int| 0 <= k < kept.len() ==> #[trigger] idx[k] != iv,
        forall|k: int|
            0 <= k < kept.len() ==> #[trigger] value_node_at(s8, kept[k]) == value_node_at(h0.data, kept[k]),
{
    lemma_delete_export(h0, s3, s6, s8, nk_off, nk, ex, kept, idx, iv, ovk, l_off, name);
    lemma_apart_node(h0, nk_off, nk, ex, iv);
    let ev = ex[iv];
    assert forall|k: int|
        #![trigger idx[k]]
        #![trigger value_node_at(s8, kept[k])]
        0 <= k < kept.len() implies idx[k] != iv && value_node_at(s8, kept[k]) == value_node_at(
            h0.data,
            kept[k],
        ) by {
        let j = idx[k];
        lemma_apart_node(h0, nk_off, nk, ex, j);
        reveal(other_value);
        assert(kept[k] != ev);
        lemma_delete_kept(h0, s3, s6, s8, nk_off, nk, ex, kept, idx, iv, ovk, l_off, name, kept[k]);
    }
}

} // verus!

verus! {

/// Every cell allocated before the delete that was no value cell of the
/// key node is still allocated after it, and still no value cell of it.
#[verifier::spinoff_prover]
#[verifier::rlimit(60)]
proof fn lemma_delete_not_cells(
    h0: HiveView,
    s8: HiveView,
    nk_off: u32,
    nk: KeyNodeView,
    ex: Seq<u32>,
    kept: Seq<u32>,
    idx: Seq<int>,
    iv: int,
    ovk: crate::cell::ValueNodeView,
    l_off: u32,
)
    requires
        h0.data.len() <= crate::hbin::max_hive_len(),
        tiled(s8.data, s8.header.hive_bins_size),
        value_cells_apart(h0, nk_off),
        key_node_at(h0.data, nk_off) == Ok::<KeyNodeView, RegError>(nk),
        value_list(h0.data, nk.value_list_offset, nk.value_count) == Ok::<Seq<u32>, RegError>(ex),
        key_node_at(s8.data, nk_off) == Ok::<KeyNodeView, RegError>(
            KeyNodeView { value_list_offset: l_off, value_count: kept.len() as u32, ..nk },
        ),
        value_list(s8.data, l_off, kept.len() as u32) == Ok::<Seq<u32>, RegError>(kept),
        kept.len() == 0 ==> l_off == FREE,
        kept.len() > 0 ==> used_tile(s8.data, l_off + 0x1000) && !used_tile(h0.data, l_off + 0x1000),
        idx.len() == kept.len(),
        forall|k: int|
            0 <= k < kept.len() ==> 0 <= #[trigger] idx[k] < ex.len() && kept[k] == ex[idx[k]] && idx[k]
                != iv,
        forall|a: int, b: int| 0 <= a < b < idx.len() ==> #[trigger] idx[a] < #[trigger] idx[b],
        0 <= iv < ex.len(),
        value_node_at(h0.data, ex[iv]) == Ok::<crate::cell::ValueNodeView, RegError>(ovk),
        forall|k: int|
            0 <= k < kept.len() ==> #[trigger] value_node_at(s8.data, kept[k]) == value_node_at(
                h0.data,
                kept[k],
            ),
        forall|o: u32|
            used_tile(h0.data, o + 0x1000) && o != nk.value_list_offset && o != ex[iv] && !(data_in_cell(
                ovk,
            ) && o == ovk.data_offset) ==> #[trigger] used_tile(s8.data, o + 0x1000),
        entries_apart(h0.data, ex),
    ensures
        forall|o: u32|
            used_tile(h0.data, o + 0x1000) && !value_cell(h0.data, nk_off, o) ==> #[trigger] used_tile(
                s8.data,
                o + 0x1000,
            ) && !value_cell(s8.data, nk_off, o),
{
    assert forall|o: u32| used_tile(h0.data, o + 0x1000) && !value_cell(h0.data, nk_off, o) implies #[trigger] used_tile(
        s8.data,
        o + 0x1000,
    ) by {
        lemma_delete_not_cell(h0, s8, nk_off, nk, ex, kept, idx, iv, ovk, l_off, o);
    }
    assert forall|o: u32| used_tile(h0.data, o + 0x1000) && !value_cell(h0.data, nk_off, o) implies !value_cell(s8.data, nk_off, o) by {
        lemma_delete_not_cell(h0, s8, nk_off, nk, ex, kept, idx, iv, ovk, l_off, o);
    }
}

/// A cell allocated before the delete that was no value cell of the key
/// node is still allocated after it, and still no value cell of it.
#[verifier::spinoff_prover]
#[verifier::rlimit(60)]
proof fn lemma_delete_not_cell(
    h0: HiveView,
    s8: HiveView,
    nk_off: u32,
    nk: KeyNodeView,
    ex: Seq<u32>,
    kept: Seq<u32>,
    idx: Seq<int>,
    iv: int,
    ovk: crate::cell::ValueNodeView,
    l_off: u32,
    o: u32,
)
    requires
        h0.data.len() <= crate::hbin::max_hive_len(),
        tiled(s8.data, s8.header.hive_bins_size),
        value_cells_apart(h0, nk_off),
        key_node_at(h0.data, nk_off) == Ok::<KeyNodeView, RegError>(nk),
        value_list(h0.data, nk.value_list_offset, nk.value_count) == Ok::<Seq<u32>, RegError>(ex),
        key_node_at(s8.data, nk_off) == Ok::<KeyNodeView, RegError>(
            KeyNodeView { value_list_offset: l_off, value_count: kept.len() as u32, ..nk },
        ),
        value_list(s8.data, l_off, kept.len() as u32) == Ok::<Seq<u32>, RegError>(kept),
        kept.len() == 0 ==> l_off == FREE,
        kept.len() > 0 ==> used_tile(s8.data, l_off + 0x1000) && !used_tile(h0.data, l_off + 0x1000),
        idx.len() == kept.len(),
        forall|k: int|
            0 <= k < kept.len() ==> 0 <= #[trigger] idx[k] < ex.len() && kept[k] == ex[idx[k]] && idx[k]
                != iv,
        forall|a: int, b: int| 0 <= a < b < idx.len() ==> #[trigger] idx[a] < #[trigger] idx[b],
        0 <= iv < ex.len(),
        value_node_at(h0.data, ex[iv]) == Ok::<crate::cell::ValueNodeView, RegError>(ovk),
        forall|k: int|
            0 <= k < kept.len() ==> #[trigger] value_node_at(s8.data, kept[k]) == value_node_at(
                h0.data,
                kept[k],
            ),
        forall|o: u32|
            used_tile(h0.data, o + 0x1000) && o != nk.value_list_offset && o != ex[iv] && !(data_in_cell(
                ovk,
            ) && o == ovk.data_offset) ==> #[trigger] used_tile(s8.data, o + 0x1000),
        entries_apart(h0.data, ex),
        used_tile(h0.data, o + 0x1000),
        !value_cell(h0.data, nk_off, o),
    ensures
        used_tile(s8.data, o + 0x1000),
        !value_cell(s8.data, nk_off, o),
{
    let d0 = h0.data;
    let d8 = s8.data;
    let ol = nk.value_list_offset;
    let ev = ex[iv];
    let od = ovk.data_offset;
    lemma_apart_key(h0, nk_off, nk);
    assert(o != ol);
    assert(o != ev) by {
        if o == ev {
            assert(value_node_at(d0, ex[iv]) == Ok::<crate::cell::ValueNodeView, RegError>(ovk));
            assert(ex[iv] == o);
        }
    }
    if data_in_cell(ovk) {
        assert(o != od) by {
            if o == od {
                assert(value_node_at(d0, ex[iv]) == Ok::<crate::cell::ValueNodeView, RegError>(ovk));
            }
        }
    }
    assert(used_tile(d8, o + 0x1000));
    crate::tiling::lemma_tile_bounds(d0, o + 0x1000);
    assert(o != l_off);
    if value_cell(d8, nk_off, o) {
        let j = choose|j: int| 0 <= j < kept.len() && (kept[j] == o || (#[trigger] value_node_at(d8, kept[j]) matches Ok(
            vj,
        ) && data_in_cell(vj) && vj.data_offset == o));
        let x = idx[j];
        assert(kept[j] == ex[x]);
        assert(value_node_at(d8, kept[j]) == value_node_at(d0, kept[j]));
        assert(value_node_at(d0, ex[x]) == value_node_at(d0, kept[j]));
        assert(value_cell(d0, nk_off, o));
    }
    assert(!value_cell(d8, nk_off, o));
    assert(used_tile(d8, o + 0x1000));
}

/// After the delete, the key node's value cells are again apart.
#[verifier::spinoff_prover]
#[verifier::rlimit(80)]
proof fn lemma_delete_apart(
    h0: HiveView,
    s8: HiveView,
    nk_off: u32,
    nk: KeyNodeView,
    ex: Seq<u32>,
    kept: Seq<u32>,
    idx: Seq<int>,
    iv: int,
    ovk: crate::cell::ValueNodeView,
    l_off: u32,
)
    requires
        h0.data.len() <= crate::hbin::max_hive_len(),
        tiled(s8.data, s8.header.hive_bins_size),
        value_cells_apart(h0, nk_off),
        key_node_at(h0.data, nk_off) == Ok::<KeyNodeView, RegError>(nk),
        value_list(h0.data, nk.value_list_offset, nk.value_count) == Ok::<Seq<u32>, RegError>(ex),
        key_node_at(s8.data, nk_off) == Ok::<KeyNodeView, RegError>(
            KeyNodeView { value_list_offset: l_off, value_count: kept.len() as u32, ..nk },
        ),
        value_list(s8.data, l_off, kept.len() as u32) == Ok::<Seq<u32>, RegError>(kept),
        kept.len() == 0 ==> l_off == FREE,
        kept.len() > 0 ==> used_tile(s8.data, l_off + 0x1000) && !used_tile(h0.data, l_off + 0x1000),
        idx.len() == kept.len(),
        forall|k: int|
            0 <= k < kept.len() ==> 0 <= #[trigger] idx[k] < ex.len() && kept[k] == ex[idx[k]] && idx[k]
                != iv,
        forall|a: int, b: int| 0 <= a < b < idx.len() ==> #[trigger] idx[a] < #[trigger] idx[b],
        0 <= iv < ex.len(),
        value_node_at(h0.data, ex[iv]) == Ok::<crate::cell::ValueNodeView, RegError>(ovk),
        forall|k: int|
            0 <= k < kept.len() ==> #[trigger] value_node_at(s8.data, kept[k]) == value_node_at(
                h0.data,
                kept[k],
            ),
        forall|o: u32|
            used_tile(h0.data, o + 0x1000) && o != nk.value_list_offset && o != ex[iv] && !(data_in_cell(
                ovk,
            ) && o == ovk.data_offset) ==> #[trigger] used_tile(s8.data, o + 0x1000),
        entries_apart(h0.data, ex),
    ensures
        value_cells_apart(s8, nk_off),
        used_tile(s8.data, nk_off + 0x1000),
{
    let d0 = h0.data;
    let d8 = s8.data;
    let ol = nk.value_list_offset;
    let ev = ex[iv];
    let od = ovk.data_offset;
    let n = kept.len();
    lemma_apart_key(h0, nk_off, nk);
    lemma_apart_node(h0, nk_off, nk, ex, iv);
    assert(used_tile(d8, nk_off + 0x1000));
    assert forall|j: int| 0 <= j < ex.len() implies #[trigger] value_node_apart(d0, ex, j, nk_off, ol) by {
        lemma_apart_node(h0, nk_off, nk, ex, j);
    }
    reveal(value_cells_apart);
    assert forall|j: int| 0 <= j < n implies #[trigger] value_node_apart(d8, kept, j, nk_off, l_off) by {
        let x = idx[j];
        assert(kept[j] == ex[x]);
        assert(value_node_apart(d0, ex, x, nk_off, ol));
        assert(value_node_apart(d0, ex, iv, nk_off, ol));
        assert(ex[x] != ev);
        assert(value_node_at(d8, kept[j]) == value_node_at(d0, kept[j]));
        assert(used_tile(d8, kept[j] + 0x1000));
        match value_node_at(d0, ex[x]) {
            Ok(vj) => {
                if data_in_cell(vj) {
                    assert(vj.data_offset != ev);
                    assert(data_apart(d0, ex[x], ex[iv]));
                    assert(used_tile(d8, vj.data_offset + 0x1000));
                    assert forall|k: int| 0 <= k < n implies #[trigger] kept[k] != vj.data_offset by {
                        assert(kept[k] == ex[idx[k]]);
                    }
                }
            },
            Err(_) => {},
        }
    }
    assert forall|j: int, k: int|
        0 <= j < n && 0 <= k < n && j != k implies #[trigger] kept[j] != #[trigger] kept[k] && data_apart(
        d8,
        kept[j],
        kept[k],
    ) by {
        assert(kept[j] == ex[idx[j]]);
        assert(kept[k] == ex[idx[k]]);
        if j < k {
            assert(idx[j] < idx[k]);
        } else {
            assert(idx[k] < idx[j]);
        }
        assert(value_node_at(d8, kept[j]) == value_node_at(d0, kept[j]));
        assert(value_node_at(d8, kept[k]) == value_node_at(d0, kept[k]));
        assert(ex[idx[j]] != ex[idx[k]] && data_apart(d0, ex[idx[j]], ex[idx[k]]));
    }
    assert(entries_apart(d8, kept));
}

/// After the delete, the key node's value cells are apart again, and a
/// path that read none of them reads none of them.
#[verifier::spinoff_prover]
proof fn lemma_delete_keeps_apart(
    h0: HiveView,
    s3: HiveView,
    s4: HiveView,
    s5: HiveView,
    s6: HiveView,
    s8: HiveView,
    path: Seq<char>,
    nk_off: u32,
    nk: KeyNodeView,
    ex: Seq<u32>,
    kept: Seq<u32>,
    idx: Seq<int>,
    iv: int,
    ovk: crate::cell::ValueNodeView,
    l_off: u32,
    name: Seq<char>,
)
    requires
        delete_facts(h0, s3.data, s6.data, s8.data, nk_off, nk, ex, kept, idx, iv, ovk, l_off, name),
        h0.data.len() <= crate::hbin::max_hive_len(),
        forall|a: int, b: int| 0 <= a < b < idx.len() ==> #[trigger] idx[a] < #[trigger] idx[b],
        tiled(s3.data, s3.header.hive_bins_size),
        s4.header == s3.header,
        s5.header == s4.header,
        s8.header == s6.header,
        s8.data.len() <= 0x8000_0000,
        s4.data.len() == s3.data.len(),
        s5.data.len() == s4.data.len(),
        nk.value_list_offset != 0 && nk.value_list_offset != FREE && tiled(
            s3.data,
            s3.header.hive_bins_size,
        ) && used_tile(s3.data, nk.value_list_offset + 0x1000) && s3.data.len() <= 0x8000_0000
            ==> frees_keep_tiles(s3, s4, seq![nk.value_list_offset]),
        !(nk.value_list_offset != 0 && nk.value_list_offset != FREE) ==> s4 == s3,
        data_in_cell(ovk) && tiled(s4.data, s4.header.hive_bins_size) && used_tile(
            s4.data,
            ovk.data_offset + 0x1000,
        ) && s4.data.len() <= 0x8000_0000 ==> frees_keep_tiles(s4, s5, seq![ovk.data_offset]),
        !data_in_cell(ovk) ==> s5 == s4,
        tiled(s5.data, s5.header.hive_bins_size) && used_tile(s5.data, ex[iv] + 0x1000)
            && s5.data.len() <= 0x8000_0000 ==> frees_keep_tiles(s5, s6, seq![ex[iv]]),
        s8.header.root_cell_offset == h0.header.root_cell_offset,
        keeps_other_cells(h0.data, s8.data, nk_off),
        key_same(h0.data, s8.data, nk_off),
    ensures
        value_cells_apart(s8, nk_off),
        path_apart(h0, path, nk_off) ==> path_apart(s8, path, nk_off),
{
    lemma_delete_export(h0, s3.data, s6.data, s8.data, nk_off, nk, ex, kept, idx, iv, ovk, l_off, name);
    lemma_apart_entries(h0, nk_off, nk, ex);
    lemma_delete_used(h0, s3, s4, s5, s6, s8, nk_off, nk, ex, kept, idx, iv, ovk, l_off, name);
    lemma_delete_list(h0, s3.data, s6.data, s8.data, nk_off, nk, ex, kept, idx, iv, ovk, l_off, name);
    lemma_delete_nodes(h0, s3.data, s6.data, s8.data, nk_off, nk, ex, kept, idx, iv, ovk, l_off, name);
    lemma_delete_apart(h0, s8, nk_off, nk, ex, kept, idx, iv, ovk, l_off);
    lemma_delete_not_cells(h0, s8, nk_off, nk, ex, kept, idx, iv, ovk, l_off);
    if path_apart(h0, path, nk_off) {
        lemma_path_apart_kept(h0, s8, path, nk_off);
    }
}

} // verus!

verus! {

/// The cells that reading the data of the value node `vk` under the key
/// node at `nk_off` may read without a write under that key changing them:
/// its own data cell, and allocated cells that are no value cells of the
/// key.
pub open spec fn apart_reader(d: Seq<u8>, nk_off: u32, vk: crate::cell::ValueNodeView) -> spec_fn(u32) -> bool {
    |o: u32| used_tile(d, o + 0x1000) && (o == vk.data_offset || !value_cell(d, nk_off, o))
}

/// The first of the value nodes `offs` named `name`, if the lookup reaches
/// one, reads its data only from the cells of [`apart_reader`].
pub open spec fn match_reads_apart(d: Seq<u8>, offs: Seq<u32>, name: Seq<char>, nk_off: u32) -> bool
    decreases offs.len(),
{
    if offs.len() == 0 {
        true
    } else {
        match value_node_at(d, offs[0]) {
            Err(_) => true,
            Ok(vk) => if name_order(vk.name, name) == 0 {
                crate::cell::data_cells_ok(d, vk, apart_reader(d, nk_off, vk))
            } else {
                match_reads_apart(d, offs.skip(1), name, nk_off)
            },
        }
    }
}

/// Looking up the value `name` of the key node at `nk_off` reads its data
/// only from the cells of [`apart_reader`].
pub open spec fn value_reads_apart(d: Seq<u8>, nk_off: u32, name: Seq<char>) -> bool {
    match key_node_at(d, nk_off) {
        Ok(nk) => match value_list(d, nk.value_list_offset, nk.value_count) {
            Ok(offs) => match_reads_apart(d, offs, name, nk_off),
            Err(_) => true,
        },
        Err(_) => true,
    }
}

/// For a lookup of `name`, the value node `b` of `d2` reads like the value
/// node `a` of `d`: the same node, or two nodes of other names.
pub open spec fn node_alike(d: Seq<u8>, d2: Seq<u8>, a: u32, b: u32, name: Seq<char>) -> bool {
    ||| value_node_at(d2, b) == value_node_at(d, a)
    ||| (value_node_at(d, a) is Ok && value_node_at(d2, b) is Ok && name_order(
        value_node_at(d, a)->Ok_0.name,
        name,
    ) != 0 && name_order(value_node_at(d2, b)->Ok_0.name, name) != 0)
}

/// The value node `a` of `d`, if it reads, has its data read alike in `d2`.
pub open spec fn data_alike(d: Seq<u8>, d2: Seq<u8>, a: u32) -> bool {
    value_node_at(d, a) is Ok ==> crate::cell::value_data_spec(d2, value_node_at(d, a)->Ok_0)
        == crate::cell::value_data_spec(d, value_node_at(d, a)->Ok_0)
}

/// A lookup over value nodes that read alike, whose match reads its data
/// alike, finds the same.
proof fn lemma_find_alike(d: Seq<u8>, d2: Seq<u8>, s: Seq<u32>, s2: Seq<u32>, name: Seq<char>, nk_off: u32)
    requires
        s2.len() == s.len(),
        forall|j: int| 0 <= j < s.len() ==> #[trigger] node_alike(d, d2, s[j], s2[j], name),
        match_reads_apart(d, s, name, nk_off),
        forall|j: int|
            0 <= j < s.len() && value_node_at(d, s[j]) is Ok && name_order(value_node_at(d, s[j])->Ok_0.name, name)
                == 0 && crate::cell::data_cells_ok(
                d,
                value_node_at(d, s[j])->Ok_0,
                apart_reader(d, nk_off, value_node_at(d, s[j])->Ok_0),
            ) ==> #[trigger] data_alike(d, d2, s[j]),
    ensures
        find_value(d2, s2, name) == find_value(d, s, name),
    decreases s.len(),
{
    if s.len() > 0 {
        assert(node_alike(d, d2, s[0], s2[0], name));
        let t = s.skip(1);
        let t2 = s2.skip(1);
        assert forall|j: int| 0 <= j < t.len() implies #[trigger] node_alike(d, d2, t[j], t2[j], name) by {
            assert(t[j] == s[j + 1] && t2[j] == s2[j + 1]);
            assert(node_alike(d, d2, s[j + 1], s2[j + 1], name));
        }
        assert forall|j: int|
            0 <= j < t.len() && value_node_at(d, t[j]) is Ok && name_order(value_node_at(d, t[j])->Ok_0.name, name)
                == 0 && crate::cell::data_cells_ok(
                d,
                value_node_at(d, t[j])->Ok_0,
                apart_reader(d, nk_off, value_node_at(d, t[j])->Ok_0),
            ) implies #[trigger] data_alike(d, d2, t[j]) by {
            assert(t[j] == s[j + 1]);
            assert(data_alike(d, d2, s[j + 1]));
        }
        match value_node_at(d, s[0]) {
            Err(_) => {},
            Ok(vk) => {
                if name_order(vk.name, name) == 0 {
                    assert(value_node_at(d2, s2[0]) == value_node_at(d, s[0]));
                    assert(data_alike(d, d2, s[0]));
                } else {
                    lemma_find_alike(d, d2, t, t2, name, nk_off);
                }
            },
        }
    }
}

/// A value node of another name appended to a lookup changes nothing it
/// finds.
#[verifier::spinoff_prover]
proof fn lemma_find_push(d: Seq<u8>, s: Seq<u32>, v: u32, name: Seq<char>)
    requires
        value_node_at(d, v) is Ok,
        name_order(value_node_at(d, v)->Ok_0.name, name) != 0,
    ensures
        find_value(d, s.push(v), name) == find_value(d, s, name),
    decreases s.len(),
{
    let s1 = s.push(v);
    if s.len() == 0 {
        assert(s1[0] == v);
        assert(s1.skip(1) =~= Seq::<u32>::empty());
        assert(find_value(d, s1.skip(1), name) == Some(Lookup::<ValueModel>::NoValue));
    } else {
        assert(s1[0] == s[0]);
        assert(s1.skip(1) =~= s.skip(1).push(v));
        lemma_find_push(d, s.skip(1), v, name);
    }
}

/// A name of the same stored form as `name` is not of the same stored form
/// as another name `other`.
proof fn lemma_other_name(a: Seq<char>, name: Seq<char>, other: Seq<char>)
    requires
        name_order(a, name) == 0,
        name_order(other, name) != 0,
    ensures
        name_order(a, other) != 0,
{
    crate::name::lemma_name_equality(a, name);
    crate::name::lemma_name_equality(other, name);
    crate::name::lemma_name_equality(a, other);
}

} // verus!

verus! {

/// A value node whose data reads from the cells of [`apart_reader`], its
/// own data cell reading the same, reads its data the same after a write
/// under the key node that keeps every other cell.
proof fn lemma_data_alike_kept(d0: Seq<u8>, d2: Seq<u8>, nk_off: u32, vk: crate::cell::ValueNodeView)
    requires
        keeps_other_cells(d0, d2, nk_off),
        crate::cell::data_cells_ok(d0, vk, apart_reader(d0, nk_off, vk)),
        !vk.inline && vk.data_size != 0 ==> crate::cell::cell_payload_spec(d2, vk.data_offset)
            == crate::cell::cell_payload_spec(d0, vk.data_offset),
    ensures
        crate::cell::value_data_spec(d2, vk) == crate::cell::value_data_spec(d0, vk),
{
    let ok = apart_reader(d0, nk_off, vk);
    if !vk.inline && vk.data_size != 0 {
        assert forall|o: u32| #[trigger] ok(o) implies crate::cell::cell_payload_spec(d2, o)
            == crate::cell::cell_payload_spec(d0, o) by {
            if o != vk.data_offset {
                assert(cell_kept(d0, d2, o));
                lemma_cell_kept_reads(d0, d2, o);
            }
        }
    }
    crate::cell::lemma_data_frame_cells(d0, d2, vk, ok);
}

/// A data cell that a value node reads from the cells of [`apart_reader`]
/// is an allocated cell, so its offset is neither 0 nor free.
proof fn lemma_read_cell_in(d0: Seq<u8>, nk_off: u32, vk: crate::cell::ValueNodeView)
    requires
        d0.len() <= crate::hbin::max_hive_len(),
        crate::cell::data_cells_ok(d0, vk, apart_reader(d0, nk_off, vk)),
        !vk.inline && vk.data_size != 0,
    ensures
        data_in_cell(vk),
        used_tile(d0, vk.data_offset + 0x1000),
{
    assert(apart_reader(d0, nk_off, vk)(vk.data_offset));
    crate::tiling::lemma_tile_bounds(d0, vk.data_offset + 0x1000);
}

/// The append path of a value write leaves the value of any other name
/// whose lookup reads apart as it was.
#[verifier::spinoff_prover]
#[verifier::rlimit(60)]
proof fn lemma_append_other(
    h0: HiveView,
    s2: Seq<u8>,
    s3: Seq<u8>,
    s4: Seq<u8>,
    s6: Seq<u8>,
    nk_off: u32,
    nk: KeyNodeView,
    ex: Seq<u32>,
    v_off: u32,
    vk: crate::cell::ValueNodeView,
    l_off: u32,
    name: Seq<char>,
    other: Seq<char>,
)
    requires
        h0.data.len() <= crate::hbin::max_hive_len(),
        write_ready(h0, s2, nk_off, nk, ex, v_off, vk, name),
        append_facts(s2, s3, s4, s6, nk_off, nk, ex, v_off, vk, l_off, name),
        keeps_other_cells(h0.data, s6, nk_off),
        name_order(other, name) != 0,
        value_reads_apart(h0.data, nk_off, other),
    ensures
        value_under(s6, nk_off, other) == value_under(h0.data, nk_off, other),
{
    let d0 = h0.data;
    let ol = nk.value_list_offset;
    let count = (ex.len() + 1) as u32;
    lemma_write_ready(h0, s2, nk_off, nk, ex, v_off, vk, name);
    lemma_append_export(s2, s3, s4, s6, nk_off, nk, ex, v_off, vk, l_off, name);
    let _ = lemma_append_regions(s2, s3, s4, s6, nk_off, nk, ex, v_off, vk, l_off, name);
    if ol != 0 && ol != FREE {
        lemma_used_kept(s2, s3, ol);
    }
    lemma_append_key(s2, s3, s4, s6, nk_off, nk, l_off, count);
    lemma_append_list(s2, s3, s4, s6, nk_off, nk, ex, v_off, vk, l_off, name);
    lemma_append_kept(s2, s3, s4, s6, nk_off, nk, ex, v_off, vk, l_off, name, v_off);
    lemma_other_name(vk.name, name, other);
    lemma_find_push(s6, ex, v_off, other);
    assert forall|j: int| 0 <= j < ex.len() implies #[trigger] node_alike(d0, s6, ex[j], ex[j], other) by {
        lemma_apart_node(h0, nk_off, nk, ex, j);
        lemma_used_kept(d0, s2, ex[j]);
        lemma_append_kept(s2, s3, s4, s6, nk_off, nk, ex, v_off, vk, l_off, name, ex[j]);
        assert(value_node_at(s2, ex[j]) == value_node_at(d0, ex[j]));
    }
    assert forall|j: int|
        0 <= j < ex.len() && value_node_at(d0, ex[j]) is Ok && name_order(value_node_at(d0, ex[j])->Ok_0.name, other)
            == 0 && crate::cell::data_cells_ok(
            d0,
            value_node_at(d0, ex[j])->Ok_0,
            apart_reader(d0, nk_off, value_node_at(d0, ex[j])->Ok_0),
        ) implies #[trigger] data_alike(d0, s6, ex[j]) by {
        let vj = value_node_at(d0, ex[j])->Ok_0;
        lemma_apart_node(h0, nk_off, nk, ex, j);
        if !vj.inline && vj.data_size != 0 {
            lemma_read_cell_in(d0, nk_off, vj);
            let dd = vj.data_offset;
            lemma_used_kept(d0, s2, dd);
            lemma_cell_kept_reads(d0, s2, dd);
            lemma_append_kept(s2, s3, s4, s6, nk_off, nk, ex, v_off, vk, l_off, name, dd);
        }
        lemma_data_alike_kept(d0, s6, nk_off, vj);
    }
    lemma_find_alike(d0, s6, ex, ex, other, nk_off);
}

/// The replace path of a value write leaves the value of any other name
/// whose lookup reads apart as it was.
#[verifier::spinoff_prover]
#[verifier::rlimit(60)]
proof fn lemma_replace_other(
    h0: HiveView,
    s2: Seq<u8>,
    s3: Seq<u8>,
    s4: Seq<u8>,
    s5: Seq<u8>,
    nk_off: u32,
    nk: KeyNodeView,
    ex: Seq<u32>,
    i: int,
    ovk: crate::cell::ValueNodeView,
    v_off: u32,
    vk: crate::cell::ValueNodeView,
    name: Seq<char>,
    other: Seq<char>,
)
    requires
        h0.data.len() <= crate::hbin::max_hive_len(),
        write_ready(h0, s2, nk_off, nk, ex, v_off, vk, name),
        replace_facts(s2, s3, s4, s5, nk_off, nk, ex, i, ovk, v_off, vk, name),
        name_order(ovk.name, name) == 0,
        keeps_other_cells(h0.data, s5, nk_off),
        name_order(other, name) != 0,
        value_reads_apart(h0.data, nk_off, other),
    ensures
        value_under(s5, nk_off, other) == value_under(h0.data, nk_off, other),
{
    let d0 = h0.data;
    let ol = nk.value_list_offset;
    let e = ex[i];
    lemma_write_ready(h0, s2, nk_off, nk, ex, v_off, vk, name);
    lemma_replace_export(s2, s3, s4, s5, nk_off, nk, ex, i, ovk, v_off, vk, name);
    lemma_replace_kept(s2, s3, s4, s5, nk_off, nk, ex, i, ovk, v_off, vk, name, nk_off);
    lemma_replace_list(s2, s3, s4, s5, nk_off, nk, ex, i, ovk, v_off, vk, name);
    lemma_replace_kept(s2, s3, s4, s5, nk_off, nk, ex, i, ovk, v_off, vk, name, v_off);
    lemma_other_name(vk.name, name, other);
    lemma_other_name(ovk.name, name, other);
    lemma_apart_node(h0, nk_off, nk, ex, i);
    assert(entries_apart(d0, ex)) by {
        lemma_apart_entries(h0, nk_off, nk, ex);
    }
    let list = ex.update(i, v_off);
    assert(value_node_at(d0, e) == Ok::<crate::cell::ValueNodeView, RegError>(ovk)) by {
        assert(value_node_at(s2, ex[i]) == value_node_at(d0, ex[i]));
    }
    assert forall|j: int| 0 <= j < ex.len() implies #[trigger] node_alike(d0, s5, ex[j], list[j], other) by {
        if j != i {
            assert(list[j] == ex[j]);
            lemma_apart_node(h0, nk_off, nk, ex, j);
            assert(ex[j] != e);
            lemma_used_kept(d0, s2, ex[j]);
            lemma_replace_kept(s2, s3, s4, s5, nk_off, nk, ex, i, ovk, v_off, vk, name, ex[j]);
            assert(value_node_at(s2, ex[j]) == value_node_at(d0, ex[j]));
        } else {
            assert(list[j] == v_off);
        }
    }
    assert forall|j: int|
        0 <= j < ex.len() && value_node_at(d0, ex[j]) is Ok && name_order(value_node_at(d0, ex[j])->Ok_0.name, other)
            == 0 && crate::cell::data_cells_ok(
            d0,
            value_node_at(d0, ex[j])->Ok_0,
            apart_reader(d0, nk_off, value_node_at(d0, ex[j])->Ok_0),
        ) implies #[trigger] data_alike(d0, s5, ex[j]) by {
        let vj = value_node_at(d0, ex[j])->Ok_0;
        assert(j != i);
        lemma_apart_node(h0, nk_off, nk, ex, j);
        if !vj.inline && vj.data_size != 0 {
            lemma_read_cell_in(d0, nk_off, vj);
            let dd = vj.data_offset;
            assert(dd != e);
            assert(data_apart(d0, ex[j], ex[i]));
            lemma_used_kept(d0, s2, dd);
            lemma_cell_kept_reads(d0, s2, dd);
            lemma_replace_kept(s2, s3, s4, s5, nk_off, nk, ex, i, ovk, v_off, vk, name, dd);
        }
        lemma_data_alike_kept(d0, s5, nk_off, vj);
    }
    lemma_find_alike(d0, s5, ex, list, other, nk_off);
}

} // verus!

verus! {

/// Under the append path of a value write, every other name whose lookup
/// reads apart keeps its value.
proof fn lemma_append_others_read(
    h0: HiveView,
    s2: Seq<u8>,
    s3: Seq<u8>,
    s4: Seq<u8>,
    s6: Seq<u8>,
    nk_off: u32,
    nk: KeyNodeView,
    ex: Seq<u32>,
    v_off: u32,
    vk: crate::cell::ValueNodeView,
    l_off: u32,
    name: Seq<char>,
)
    requires
        h0.data.len() <= crate::hbin::max_hive_len(),
        write_ready(h0, s2, nk_off, nk, ex, v_off, vk, name),
        append_facts(s2, s3, s4, s6, nk_off, nk, ex, v_off, vk, l_off, name),
        keeps_other_cells(h0.data, s6, nk_off),
    ensures
        forall|other: Seq<char>|
            name_order(other, name) != 0 && value_reads_apart(h0.data, nk_off, other) ==> #[trigger] value_under(
                s6,
                nk_off,
                other,
            ) == value_under(h0.data, nk_off, other),
{
    assert forall|other: Seq<char>| name_order(other, name) != 0 && value_reads_apart(h0.data, nk_off, other) implies #[trigger] value_under(
        s6,
        nk_off,
        other,
    ) == value_under(h0.data, nk_off, other) by {
        lemma_append_other(h0, s2, s3, s4, s6, nk_off, nk, ex, v_off, vk, l_off, name, other);
    }
}

/// Under the replace path of a value write, every other name whose lookup
/// reads apart keeps its value.
proof fn lemma_replace_others_read(
    h0: HiveView,
    s2: Seq<u8>,
    s3: Seq<u8>,
    s4: Seq<u8>,
    s5: Seq<u8>,
    nk_off: u32,
    nk: KeyNodeView,
    ex: Seq<u32>,
    i: int,
    ovk: crate::cell::ValueNodeView,
    v_off: u32,
    vk: crate::cell::ValueNodeView,
    name: Seq<char>,
)
    requires
        h0.data.len() <= crate::hbin::max_hive_len(),
        write_ready(h0, s2, nk_off, nk, ex, v_off, vk, name),
        replace_facts(s2, s3, s4, s5, nk_off, nk, ex, i, ovk, v_off, vk, name),
        name_order(ovk.name, name) == 0,
        keeps_other_cells(h0.data, s5, nk_off),
    ensures
        forall|other: Seq<char>|
            name_order(other, name) != 0 && value_reads_apart(h0.data, nk_off, other) ==> #[trigger] value_under(
                s5,
                nk_off,
                other,
            ) == value_under(h0.data, nk_off, other),
{
    assert forall|other: Seq<char>| name_order(other, name) != 0 && value_reads_apart(h0.data, nk_off, other) implies #[trigger] value_under(
        s5,
        nk_off,
        other,
    ) == value_under(h0.data, nk_off, other) by {
        lemma_replace_other(h0, s2, s3, s4, s5, nk_off, nk, ex, i, ovk, v_off, vk, name, other);
    }
}

} // verus!

verus! {

/// `kept` lists, in order, the value nodes of `offs` not named `name`, and
/// every node of `offs` reads.
pub open spec fn filtered(d: Seq<u8>, offs: Seq<u32>, kept: Seq<u32>, name: Seq<char>) -> bool
    decreases offs.len(),
{
    if offs.len() == 0 {
        kept.len() == 0
    } else {
        &&& value_node_at(d, offs[0]) is Ok
        &&& if name_order(value_node_at(d, offs[0])->Ok_0.name, name) == 0 {
            filtered(d, offs.skip(1), kept, name)
        } else {
            &&& kept.len() > 0
            &&& kept[0] == offs[0]
            &&& filtered(d, offs.skip(1), kept.skip(1), name)
        }
    }
}

/// Filtering one more node.
proof fn lemma_filtered_push(d: Seq<u8>, offs: Seq<u32>, kept: Seq<u32>, x: u32, name: Seq<char>)
    requires
        filtered(d, offs, kept, name),
        value_node_at(d, x) is Ok,
    ensures
        filtered(
            d,
            offs.push(x),
            if name_order(value_node_at(d, x)->Ok_0.name, name) == 0 {
                kept
            } else {
                kept.push(x)
            },
            name,
        ),
    decreases offs.len(),
{
    let o2 = offs.push(x);
    let keep = name_order(value_node_at(d, x)->Ok_0.name, name) != 0;
    let k2 = if keep {
        kept.push(x)
    } else {
        kept
    };
    if offs.len() == 0 {
        assert(o2[0] == x);
        assert(o2.skip(1) =~= Seq::<u32>::empty());
        assert(kept.len() == 0);
        if keep {
            assert(k2[0] == x);
            assert(k2.skip(1) =~= Seq::<u32>::empty());
            assert(filtered(d, o2.skip(1), k2.skip(1), name));
        } else {
            assert(filtered(d, o2.skip(1), k2, name));
        }
    } else {
        assert(o2[0] == offs[0]);
        assert(o2.skip(1) =~= offs.skip(1).push(x));
        if name_order(value_node_at(d, offs[0])->Ok_0.name, name) == 0 {
            lemma_filtered_push(d, offs.skip(1), kept, x, name);
        } else {
            assert(k2[0] == kept[0]);
            if keep {
                assert(k2.skip(1) =~= kept.skip(1).push(x));
            }
            lemma_filtered_push(d, offs.skip(1), kept.skip(1), x, name);
        }
    }
}

/// A lookup of another name over the filtered nodes, each reading as
/// before and the match reading its data alike, finds what the lookup over
/// all of them found.
proof fn lemma_find_filtered(
    d: Seq<u8>,
    d2: Seq<u8>,
    offs: Seq<u32>,
    kept: Seq<u32>,
    name: Seq<char>,
    other: Seq<char>,
    nk_off: u32,
)
    requires
        filtered(d, offs, kept, name),
        name_order(other, name) != 0,
        forall|k: int| 0 <= k < kept.len() ==> #[trigger] value_node_at(d2, kept[k]) == value_node_at(d, kept[k]),
        match_reads_apart(d, offs, other, nk_off),
        forall|j: int|
            0 <= j < offs.len() && value_node_at(d, offs[j]) is Ok && name_order(value_node_at(d, offs[j])->Ok_0.name, other)
                == 0 && crate::cell::data_cells_ok(
                d,
                value_node_at(d, offs[j])->Ok_0,
                apart_reader(d, nk_off, value_node_at(d, offs[j])->Ok_0),
            ) ==> #[trigger] data_alike(d, d2, offs[j]),
    ensures
        find_value(d2, kept, other) == find_value(d, offs, other),
    decreases offs.len(),
{
    if offs.len() > 0 {
        let vk = value_node_at(d, offs[0])->Ok_0;
        let t = offs.skip(1);
        assert forall|j: int|
            0 <= j < t.len() && value_node_at(d, t[j]) is Ok && name_order(value_node_at(d, t[j])->Ok_0.name, other)
                == 0 && crate::cell::data_cells_ok(
                d,
                value_node_at(d, t[j])->Ok_0,
                apart_reader(d, nk_off, value_node_at(d, t[j])->Ok_0),
            ) implies #[trigger] data_alike(d, d2, t[j]) by {
            assert(t[j] == offs[j + 1]);
            assert(data_alike(d, d2, offs[j + 1]));
        }
        if name_order(vk.name, name) == 0 {
            lemma_other_name(vk.name, name, other);
            lemma_find_filtered(d, d2, t, kept, name, other, nk_off);
        } else {
            assert(kept[0] == offs[0]);
            assert(value_node_at(d2, kept[0]) == value_node_at(d, kept[0]));
            if name_order(vk.name, other) == 0 {
                assert(data_alike(d, d2, offs[0]));
            } else {
                let k1 = kept.skip(1);
                assert forall|k: int| 0 <= k < k1.len() implies #[trigger] value_node_at(d2, k1[k]) == value_node_at(
                    d,
                    k1[k],
                ) by {
                    assert(k1[k] == kept[k + 1]);
                    assert(value_node_at(d2, kept[k + 1]) == value_node_at(d, kept[k + 1]));
                }
                lemma_find_filtered(d, d2, t, k1, name, other, nk_off);
            }
        }
    }
}

} // verus!

verus! {

/// The delete leaves the value of any other name whose lookup reads apart
/// as it was.
#[verifier::spinoff_prover]
#[verifier::rlimit(60)]
proof fn lemma_delete_other(
    h0: HiveView,
    s3: Seq<u8>,
    s6: Seq<u8>,
    s8: Seq<u8>,
    nk_off: u32,
    nk: KeyNodeView,
    ex: Seq<u32>,
    kept: Seq<u32>,
    idx: Seq<int>,
    iv: int,
    ovk: crate::cell::ValueNodeView,
    l_off: u32,
    name: Seq<char>,
    other: Seq<char>,
)
    requires
        delete_facts(h0, s3, s6, s8, nk_off, nk, ex, kept, idx, iv, ovk, l_off, name),
        h0.data.len() <= crate::hbin::max_hive_len(),
        filtered(h0.data, ex, kept, name),
        keeps_other_cells(h0.data, s8, nk_off),
        name_order(other, name) != 0,
        value_reads_apart(h0.data, nk_off, other),
    ensures
        value_under(s8, nk_off, other) == value_under(h0.data, nk_off, other),
{
    let d0 = h0.data;
    let ol = nk.value_list_offset;
    let ev = ex[iv];
    let od = ovk.data_offset;
    lemma_delete_export(h0, s3, s6, s8, nk_off, nk, ex, kept, idx, iv, ovk, l_off, name);
    lemma_delete_list(h0, s3, s6, s8, nk_off, nk, ex, kept, idx, iv, ovk, l_off, name);
    lemma_delete_nodes(h0, s3, s6, s8, nk_off, nk, ex, kept, idx, iv, ovk, l_off, name);
    lemma_apart_entries(h0, nk_off, nk, ex);
    lemma_apart_node(h0, nk_off, nk, ex, iv);
    lemma_other_name(ovk.name, name, other);
    assert forall|j: int|
        0 <= j < ex.len() && value_node_at(d0, ex[j]) is Ok && name_order(value_node_at(d0, ex[j])->Ok_0.name, other)
            == 0 && crate::cell::data_cells_ok(
            d0,
            value_node_at(d0, ex[j])->Ok_0,
            apart_reader(d0, nk_off, value_node_at(d0, ex[j])->Ok_0),
        ) implies #[trigger] data_alike(d0, s8, ex[j]) by {
        let vj = value_node_at(d0, ex[j])->Ok_0;
        assert(j != iv);
        lemma_apart_node(h0, nk_off, nk, ex, j);
        if !vj.inline && vj.data_size != 0 {
            lemma_read_cell_in(d0, nk_off, vj);
            let dd = vj.data_offset;
            assert(dd != ev);
            assert(data_apart(d0, ex[j], ex[iv]));
            lemma_delete_kept(h0, s3, s6, s8, nk_off, nk, ex, kept, idx, iv, ovk, l_off, name, dd);
        }
        lemma_data_alike_kept(d0, s8, nk_off, vj);
    }
    lemma_find_filtered(d0, s8, ex, kept, name, other, nk_off);
}

/// Under the delete, every other name whose lookup reads apart keeps its
/// value.
proof fn lemma_delete_others_read(
    h0: HiveView,
    s3: Seq<u8>,
    s6: Seq<u8>,
    s8: Seq<u8>,
    nk_off: u32,
    nk: KeyNodeView,
    ex: Seq<u32>,
    kept: Seq<u32>,
    idx: Seq<int>,
    iv: int,
    ovk: crate::cell::ValueNodeView,
    l_off: u32,
    name: Seq<char>,
)
    requires
        delete_facts(h0, s3, s6, s8, nk_off, nk, ex, kept, idx, iv, ovk, l_off, name),
        h0.data.len() <= crate::hbin::max_hive_len(),
        filtered(h0.data, ex, kept, name),
        keeps_other_cells(h0.data, s8, nk_off),
    ensures
        forall|other: Seq<char>|
            name_order(other, name) != 0 && value_reads_apart(h0.data, nk_off, other) ==> #[trigger] value_under(
                s8,
                nk_off,
                other,
            ) == value_under(h0.data, nk_off, other),
{
    assert forall|other: Seq<char>| name_order(other, name) != 0 && value_reads_apart(h0.data, nk_off, other) implies #[trigger] value_under(
        s8,
        nk_off,
        other,
    ) == value_under(h0.data, nk_off, other) by {
        lemma_delete_other(h0, s3, s6, s8, nk_off, nk, ex, kept, idx, iv, ovk, l_off, name, other);
    }
}

} // verus!

verus! {

/// A value list that reads holds its entries in its cell's payload, which
/// lies in the buffer.
proof fn lemma_list_room(d: Seq<u8>, ol: u32, count: u32)
    requires
        value_list(d, ol, count) is Ok,
    ensures
        4 * value_list(d, ol, count)->Ok_0.len() <= d.len(),
        value_list(d, ol, count)->Ok_0.len() > 0 ==> (crate::hbin::payload_range(d, ol) matches Ok((a, b))
            && 4 * value_list(d, ol, count)->Ok_0.len() <= b - a),
{
    if !(count == 0 || ol == 0 || ol == FREE) {
        let (a, b) = crate::hbin::payload_range(d, ol).unwrap();
        let p = d.subrange(a, b);
        crate::cell::lemma_offsets_fit(p, count as nat);
    }
}

/// The lookup of `name` among the value nodes `offs` reads every node up to
/// the first of that name, or all of them.
pub open spec fn scan_reads(d: Seq<u8>, offs: Seq<u32>, name: Seq<char>) -> bool
    decreases offs.len(),
{
    offs.len() == 0 || (value_node_at(d, offs[0]) is Ok && (name_order(
        value_node_at(d, offs[0])->Ok_0.name,
        name,
    ) == 0 || scan_reads(d, offs.skip(1), name)))
}

/// The key node at `nk_off` and its value list read, and so does the
/// lookup of `name` among its value nodes.
pub open spec fn value_slot_reads(d: Seq<u8>, nk_off: u32, name: Seq<char>) -> bool {
    &&& key_node_at(d, nk_off) is Ok
    &&& value_list(
        d,
        key_node_at(d, nk_off)->Ok_0.value_list_offset,
        key_node_at(d, nk_off)->Ok_0.value_count,
    ) is Ok
    &&& scan_reads(
        d,
        value_list(
            d,
            key_node_at(d, nk_off)->Ok_0.value_list_offset,
            key_node_at(d, nk_off)->Ok_0.value_count,
        )->Ok_0,
        name,
    )
}

/// A lookup that found the value read every node up to it.
proof fn lemma_found_scan_reads(d: Seq<u8>, offs: Seq<u32>, name: Seq<char>)
    requires
        find_value(d, offs, name) matches Some(Lookup::Found(_)),
    ensures
        scan_reads(d, offs, name),
    decreases offs.len(),
{
    if offs.len() > 0 {
        if name_order(value_node_at(d, offs[0])->Ok_0.name, name) != 0 {
            lemma_found_scan_reads(d, offs.skip(1), name);
        }
    }
}

/// Where the value `name` under the key node at `off` reads back, the
/// lookup that a next write of that name makes reads too.
pub proof fn lemma_found_slot_reads(d: Seq<u8>, off: u32, name: Seq<char>)
    requires
        value_under(d, off, name) matches Some(Lookup::Found(_)),
    ensures
        value_slot_reads(d, off, name),
{
    let nk = key_node_at(d, off)->Ok_0;
    lemma_found_scan_reads(d, value_list(d, nk.value_list_offset, nk.value_count)->Ok_0, name);
}

/// One step of a lookup that reads: the node reads, and past a node of
/// another name the rest of the lookup reads.
proof fn lemma_scan_next(d: Seq<u8>, offs: Seq<u32>, i: int, name: Seq<char>)
    requires
        0 <= i < offs.len(),
        scan_reads(d, offs.skip(i), name),
    ensures
        value_node_at(d, offs[i]) is Ok,
        name_order(value_node_at(d, offs[i])->Ok_0.name, name) != 0 ==> scan_reads(
            d,
            offs.skip(i + 1),
            name,
        ),
{
    assert(offs.skip(i)[0] == offs[i]);
    assert(offs.skip(i).skip(1) =~= offs.skip(i + 1));
}

/// [`lemma_nk_fields_ok`] with one freed cell.
proof fn lemma_nk_fields_one(
    h0: HiveView,
    s2: Seq<u8>,
    s3: Seq<u8>,
    s4: Seq<u8>,
    nk_off: u32,
    ol: u32,
    freed: bool,
    l: u32,
    count: u32,
)
    requires
        tiled(h0.data, h0.header.hive_bins_size),
        used_tile(h0.data, nk_off + 0x1000),
        key_node_at(h0.data, nk_off) is Ok,
        keeps_used(h0.data, s2),
        keeps_used(s2, s3),
        freed ==> used_tile(h0.data, ol + 0x1000) && ol != nk_off,
        freed ==> s4.len() == s3.len() && forall|i: int|
            0 <= i < s3.len() && !(ol + 0x1000 <= i < ol + 0x1004) ==> #[trigger] s4[i] == s3[i],
        !freed ==> s4 == s3,
    ensures
        crate::cell::set_field_spec(s4, nk_off, crate::cell::NK_VALUE_LIST as int, l) is Ok,
        crate::cell::set_field_spec(
            crate::cell::set_field_spec(s4, nk_off, crate::cell::NK_VALUE_LIST as int, l)->Ok_0,
            nk_off,
            crate::cell::NK_VALUE_COUNT as int,
            count,
        ) is Ok,
{
    assert forall|i: int|
        0 <= i < s3.len() && !(freed && ol + 0x1000 <= i < ol + 0x1004) && !(false && 0u32 + 0x1000 <= i
            < 0u32 + 0x1004) && !(false && 0u32 + 0x1000 <= i < 0u32 + 0x1004) implies #[trigger] s4[i]
        == s3[i] by {}
    lemma_nk_fields_ok(h0, s2, s3, s4, nk_off, ol, freed, 0, false, 0, false, l, count);
}

/// The key node at `nk_off`, allocated in a tiled hive and read there,
/// reads its cell the same after allocations and the freeing of up to three
/// other allocated cells, and then has room for its value list and count
/// fields.
#[verifier::spinoff_prover]
#[verifier::rlimit(50)]
proof fn lemma_nk_fields_ok(
    h0: HiveView,
    s2: Seq<u8>,
    s3: Seq<u8>,
    s4: Seq<u8>,
    nk_off: u32,
    f1: u32,
    b1: bool,
    f2: u32,
    b2: bool,
    f3: u32,
    b3: bool,
    l: u32,
    count: u32,
)
    requires
        tiled(h0.data, h0.header.hive_bins_size),
        used_tile(h0.data, nk_off + 0x1000),
        key_node_at(h0.data, nk_off) is Ok,
        keeps_used(h0.data, s2),
        keeps_used(s2, s3),
        b1 ==> used_tile(h0.data, f1 + 0x1000) && f1 != nk_off,
        b2 ==> used_tile(h0.data, f2 + 0x1000) && f2 != nk_off,
        b3 ==> used_tile(h0.data, f3 + 0x1000) && f3 != nk_off,
        s4.len() == s3.len(),
        forall|i: int|
            0 <= i < s3.len() && !(b1 && f1 + 0x1000 <= i < f1 + 0x1004) && !(b2 && f2 + 0x1000 <= i < f2
                + 0x1004) && !(b3 && f3 + 0x1000 <= i < f3 + 0x1004) ==> #[trigger] s4[i] == s3[i],
    ensures
        crate::cell::set_field_spec(s4, nk_off, crate::cell::NK_VALUE_LIST as int, l) is Ok,
        crate::cell::set_field_spec(
            crate::cell::set_field_spec(s4, nk_off, crate::cell::NK_VALUE_LIST as int, l)->Ok_0,
            nk_off,
            crate::cell::NK_VALUE_COUNT as int,
            count,
        ) is Ok,
{
    let d0 = h0.data;
    let c = nk_off + 0x1000;
    lemma_key_node_room(d0, nk_off);
    lemma_used_kept(d0, s2, nk_off);
    lemma_used_kept(s2, s3, nk_off);
    crate::tiling::lemma_tile_bounds(d0, c);
    if b1 {
        crate::tiling::lemma_tiles_apart_at(d0, c, f1 + 0x1000);
        crate::tiling::lemma_tile_bounds(d0, f1 + 0x1000);
    }
    if b2 {
        crate::tiling::lemma_tiles_apart_at(d0, c, f2 + 0x1000);
        crate::tiling::lemma_tile_bounds(d0, f2 + 0x1000);
    }
    if b3 {
        crate::tiling::lemma_tiles_apart_at(d0, c, f3 + 0x1000);
        crate::tiling::lemma_tile_bounds(d0, f3 + 0x1000);
    }
    assert forall|k: int| c <= k < c + 4 implies #[trigger] s4[k] == d0[k] by {
        assert(s2[k] == d0[k]);
        assert(s3[k] == s2[k]);
        assert(s4[k] == s3[k]);
    }
    assert(s4[c] == d0[c] && s4[c + 1] == d0[c + 1] && s4[c + 2] == d0[c + 2] && s4[c + 3] == d0[c + 3]);
    assert(crate::hbin::payload_range(s4, nk_off) == crate::hbin::payload_range(d0, nk_off));
    let (a, b) = crate::hbin::payload_range(s4, nk_off).unwrap();
    let s5 = crate::bytes::put_u32(s4, a + crate::cell::NK_VALUE_LIST as int, l);
    crate::bytes::lemma_put_u32(s4, a + crate::cell::NK_VALUE_LIST as int, l);
    assert(s5[c] == s4[c] && s5[c + 1] == s4[c + 1] && s5[c + 2] == s4[c + 2] && s5[c + 3] == s4[c + 3]);
    assert(crate::hbin::payload_range(s5, nk_off) == crate::hbin::payload_range(s4, nk_off));
}

} // verus!

verus! {

/// Incrementing a security cell's reference count keeps the buffer's
/// length.
proof fn lemma_incr_len(d: Seq<u8>, sk: u32)
    requires
        crate::cell::incr_refcount_spec(d, sk) is Ok,
    ensures
        crate::cell::incr_refcount_spec(d, sk)->Ok_0.len() == d.len(),
{
    let (a, b) = crate::hbin::payload_range(d, sk).unwrap();
    crate::bytes::lemma_put_u32(d, a + 12, vstd::wrapping::u32_specs::wrapping_add(u32_at(d, a + 12), 1));
}

/// After a subkey insertion's reference count increment and the new key
/// node's allocation, every cell allocated before but the security cell is
/// kept and still allocated.
#[verifier::spinoff_prover]
proof fn lemma_insert_first(h0: HiveView, h1: HiveView, h2: HiveView, sk: u32)
    requires
        tiled(h0.data, h0.header.hive_bins_size),
        used_tile(h0.data, sk + 0x1000),
        h1.header == h0.header,
        crate::cell::incr_refcount_spec(h0.data, sk) == Ok::<Seq<u8>, RegError>(h1.data),
        tiled(h1.data, h1.header.hive_bins_size) ==> tiled(h2.data, h2.header.hive_bins_size)
            && keeps_used(h1.data, h2.data),
    ensures
        h1.data.len() == h0.data.len(),
        keeps_used(h1.data, h2.data),
        tiled(h2.data, h2.header.hive_bins_size),
        forall|o: u32|
            used_tile(h0.data, o + 0x1000) && o != sk ==> #[trigger] cell_kept(h0.data, h2.data, o)
                && used_tile(h2.data, o + 0x1000),
{
    let d0 = h0.data;
    let d1 = h1.data;
    let c = sk + 0x1000;
    let (a, b) = crate::hbin::payload_range(d0, sk).unwrap();
    let v = vstd::wrapping::u32_specs::wrapping_add(u32_at(d0, a + 12), 1);
    crate::tiling::lemma_tile_bounds(d0, c);
    crate::bytes::lemma_put_u32(d0, a + 12, v);
    crate::tiling::lemma_write_in_tile(d0, d1, c, a + 12, a + 16);
    assert(tiled(d1, h1.header.hive_bins_size));
    assert forall|o: u32| used_tile(d0, o + 0x1000) && o != sk implies #[trigger] cell_kept(d0, h2.data, o)
        && used_tile(h2.data, o + 0x1000) by {
        let x = o + 0x1000;
        assert(is_tile(d0, x));
        assert(used_tile(d1, x));
        assert(cell_kept(d0, d1, o)) by {
            crate::tiling::lemma_tile_bounds(d0, x);
        }
        lemma_used_kept(d1, h2.data, o);
        lemma_cell_kept_trans(d0, d1, h2.data, o);
    }
}

/// A subkey list that reads has a payload that reads, unless it is no list.
proof fn lemma_list_payload(d: Seq<u8>, off: u32)
    requires
        crate::cell::subkey_list(d, off) is Ok,
        off != 0 && off != FREE,
    ensures
        crate::cell::cell_payload_spec(d, off) is Ok,
{
}

/// Where the insertion is ready and the cells it reads are kept, the
/// parent's subkey entries and leaf format read, and it has fewer than
/// 0xFFFF subkeys.
#[verifier::spinoff_prover]
proof fn lemma_insert_reads_ok(h0: HiveView, d2: Seq<u8>, parent: u32, pk: KeyNodeView, name: Seq<char>)
    requires
        used_tile(h0.data, parent + 0x1000),
        find_child_spec(h0.data, parent, name) == Ok::<Option<u32>, RegError>(None),
        key_node_at(h0.data, parent) == Ok::<KeyNodeView, RegError>(pk),
        insert_cells_apart(h0.data, parent, pk),
        forall|o: u32|
            used_tile(h0.data, o + 0x1000) && o != pk.security_offset ==> #[trigger] cell_kept(
                h0.data,
                d2,
                o,
            ),
    ensures
        child_entries_spec(d2, parent) is Ok,
        child_entries_spec(d2, parent)->Ok_0.len() < 0xFFFF,
        crate::cell::leaf_kind_spec(d2, pk.subkey_list_offset) is Ok,
{
    let d0 = h0.data;
    let sk = pk.security_offset;
    let offs = subkey_list(d0, pk.subkey_list_offset)->Ok_0;
    assert(cell_kept(d0, d2, parent));
    lemma_cell_kept_reads(d0, d2, parent);
    let ok = alive_but(d0, sk);
    assert forall|o: u32| #[trigger] ok(o) implies crate::cell::cell_payload_spec(d2, o)
        == crate::cell::cell_payload_spec(d0, o) by {
        assert(cell_kept(d0, d2, o));
        lemma_cell_kept_reads(d0, d2, o);
    }
    lemma_list_frame(d0, d2, pk.subkey_list_offset, crate::cell::ri_depth(), ok);
    assert forall|k: int| 0 <= k < offs.len() implies #[trigger] key_node_at(d2, offs[k]) == key_node_at(
        d0,
        offs[k],
    ) by {
        assert(used_tile(d0, offs[k] + 0x1000));
        assert(cell_kept(d0, d2, offs[k]));
        lemma_cell_kept_reads(d0, d2, offs[k]);
    }
    lemma_entries_frame(d0, d2, offs);
    lemma_first_match_none(d0, offs, name);
    lemma_entries_read(d0, offs);
    let l = pk.subkey_list_offset;
    if l != 0 && l != FREE {
        lemma_list_payload(d0, l);
        assert(ok(l));
    }
}

/// The parent key node, kept through a subkey insertion's allocations and
/// the freeing of other allocated cells, has room for its subkey list and
/// count fields.
#[verifier::spinoff_prover]
#[verifier::rlimit(40)]
proof fn lemma_parent_fields_ok(
    h0: HiveView,
    s3: Seq<u8>,
    s4: Seq<u8>,
    parent: u32,
    fs: Seq<u32>,
    l: u32,
    count: u32,
)
    requires
        tiled(h0.data, h0.header.hive_bins_size),
        used_tile(h0.data, parent + 0x1000),
        key_node_at(h0.data, parent) is Ok,
        cell_kept(h0.data, s3, parent),
        forall|k: int| 0 <= k < fs.len() ==> used_tile(h0.data, #[trigger] fs[k] + 0x1000) && fs[k] != parent,
        s4.len() == s3.len(),
        forall|i: int| 0 <= i < s3.len() && outside_headers(fs, i) ==> #[trigger] s4[i] == s3[i],
    ensures
        crate::hbin::payload_range(s4, parent) == crate::hbin::payload_range(h0.data, parent),
        crate::cell::set_field_spec(s4, parent, crate::cell::NK_SUBKEY_LIST as int, l) is Ok,
        crate::cell::set_field_spec(
            crate::cell::set_field_spec(s4, parent, crate::cell::NK_SUBKEY_LIST as int, l)->Ok_0,
            parent,
            crate::cell::NK_SUBKEY_COUNT as int,
            count,
        ) is Ok,
{
    let d0 = h0.data;
    let c = parent + 0x1000;
    lemma_key_node_room(d0, parent);
    crate::tiling::lemma_tile_bounds(d0, c);
    assert forall|k: int| c <= k < c + 4 implies #[trigger] s4[k] == d0[k] by {
        assert(s3[k] == d0[k]);
        assert(outside_headers(fs, k)) by {
            assert forall|j: int| 0 <= j < fs.len() implies !(#[trigger] fs[j] + 0x1000 <= k < fs[j] + 0x1004) by {
                crate::tiling::lemma_tiles_apart_at(d0, c, fs[j] + 0x1000);
                crate::tiling::lemma_tile_bounds(d0, fs[j] + 0x1000);
            }
        }
    }
    assert(s4[c] == d0[c] && s4[c + 1] == d0[c + 1] && s4[c + 2] == d0[c + 2] && s4[c + 3] == d0[c + 3]);
    assert(crate::hbin::payload_range(s4, parent) == crate::hbin::payload_range(d0, parent));
    let (a, b) = crate::hbin::payload_range(s4, parent).unwrap();
    let s5 = crate::bytes::put_u32(s4, a + crate::cell::NK_SUBKEY_LIST as int, l);
    crate::bytes::lemma_put_u32(s4, a + crate::cell::NK_SUBKEY_LIST as int, l);
    assert(s5[c] == s4[c] && s5[c + 1] == s4[c + 1] && s5[c + 2] == s4[c + 2] && s5[c + 3] == s4[c + 3]);
    assert(crate::hbin::payload_range(s5, parent) == crate::hbin::payload_range(s4, parent));
}

} // verus!

verus! {

/// Cells kept up to one state and still allocated there are kept through a
/// later state that keeps the allocated cells.
proof fn lemma_insert_kept_on(h0: HiveView, d2: Seq<u8>, d3: Seq<u8>, sk: u32)
    requires
        forall|o: u32|
            #![trigger used_tile(h0.data, o + 0x1000)]
            used_tile(h0.data, o + 0x1000) && o != sk ==> cell_kept(h0.data, d2, o) && used_tile(
                d2,
                o + 0x1000,
            ),
        keeps_used(d2, d3),
    ensures
        forall|o: u32| used_tile(h0.data, o + 0x1000) && o != sk ==> #[trigger] cell_kept(h0.data, d3, o),
{
    assert forall|o: u32| used_tile(h0.data, o + 0x1000) && o != sk implies #[trigger] cell_kept(h0.data, d3, o) by {
        assert(cell_kept(h0.data, d2, o) && used_tile(d2, o + 0x1000));
        lemma_used_kept(d2, d3, o);
        lemma_cell_kept_trans(h0.data, d2, d3, o);
    }
}

/// Where the insertion's cells are kept, the old subkey list reads as it
/// did, and the cells it frees lie in the buffer.
#[verifier::spinoff_prover]
proof fn lemma_insert_frees_ok(h0: HiveView, d3: Seq<u8>, parent: u32, pk: KeyNodeView)
    requires
        insert_cells_apart(h0.data, parent, pk),
        forall|o: u32|
            used_tile(h0.data, o + 0x1000) && o != pk.security_offset ==> #[trigger] cell_kept(
                h0.data,
                d3,
                o,
            ),
        h0.data.len() <= d3.len(),
    ensures
        pk.subkey_list_offset != 0 && pk.subkey_list_offset != FREE ==> crate::cell::cell_payload_spec(
            d3,
            pk.subkey_list_offset,
        ) is Ok,
        lists_freed(d3, pk.subkey_list_offset) == lists_freed(h0.data, pk.subkey_list_offset),
        forall|k: int|
            0 <= k < lists_freed(d3, pk.subkey_list_offset).len() ==> #[trigger] lists_freed(
                d3,
                pk.subkey_list_offset,
            )[k] + 0x1004 <= d3.len(),
{
    let d0 = h0.data;
    let l = pk.subkey_list_offset;
    let sk = pk.security_offset;
    if l != 0 && l != FREE {
        lemma_list_payload(d0, l);
        assert(alive_but(d0, sk)(l));
        assert(cell_kept(d0, d3, l));
        lemma_cell_kept_reads(d0, d3, l);
    }
    let fs = lists_freed(d0, l);
    assert forall|k: int| 0 <= k < fs.len() implies #[trigger] fs[k] + 0x1004 <= d3.len() by {
        assert(used_tile(d0, fs[k] + 0x1000));
        crate::tiling::lemma_tile_bounds(d0, fs[k] + 0x1000);
    }
}

} // verus!

verus! {

/// Every cell allocated in `d` but `sk` is kept in `d2` and still
/// allocated there.
#[verifier::opaque]
pub open spec fn kept_but(d: Seq<u8>, d2: Seq<u8>, sk: u32) -> bool {
    forall|o: u32|
        used_tile(d, o + 0x1000) && o != sk ==> #[trigger] cell_kept(d, d2, o) && used_tile(d2, o + 0x1000)
}

/// A ready insertion's parent key node reads, and the new name fits its
/// 16-bit length.
proof fn lemma_insert_ready_node(h: HiveView, parent: u32, name: Seq<char>)
    requires
        insert_ready(h, parent, name),
    ensures
        key_node_at(h.data, parent) is Ok,
        crate::cell::name_to_bytes(name, vstd::utf8::is_ascii_chars(name)).len() <= 0xFFFF,
{
    reveal(insert_ready);
}

/// The first steps of a ready insertion: the reference count increment and
/// the new key node's allocation keep every other cell, and the parent's
/// subkey entries and leaf format still read.
#[verifier::spinoff_prover]
proof fn lemma_insert_step1(
    s0: HiveView,
    s1: HiveView,
    s2: HiveView,
    parent: u32,
    name: Seq<char>,
    pk: KeyNodeView,
)
    requires
        insert_ready(s0, parent, name),
        key_node_at(s0.data, parent) == Ok::<KeyNodeView, RegError>(pk),
        s1.header == s0.header,
        crate::cell::incr_refcount_spec(s0.data, pk.security_offset) == Ok::<Seq<u8>, RegError>(s1.data),
        tiled(s1.data, s1.header.hive_bins_size) ==> tiled(s2.data, s2.header.hive_bins_size)
            && keeps_used(s1.data, s2.data),
    ensures
        s1.data.len() == s0.data.len(),
        tiled(s2.data, s2.header.hive_bins_size),
        keeps_used(s1.data, s2.data),
        kept_but(s0.data, s2.data, pk.security_offset),
        child_entries_spec(s2.data, parent) is Ok,
        child_entries_spec(s2.data, parent)->Ok_0.len() < 0xFFFF,
        crate::cell::leaf_kind_spec(s2.data, pk.subkey_list_offset) is Ok,
{
    reveal(insert_ready);
    reveal(kept_but);
    lemma_insert_first(s0, s1, s2, pk.security_offset);
    lemma_insert_reads_ok(s0, s2.data, parent, pk, name);
}

/// Before a ready insertion frees the old subkey list, that list reads as
/// it did and the cells it frees lie in the buffer; the parent is kept.
#[verifier::spinoff_prover]
proof fn lemma_insert_step2(s0: HiveView, d2: Seq<u8>, d3: Seq<u8>, parent: u32, name: Seq<char>, pk: KeyNodeView)
    requires
        insert_ready(s0, parent, name),
        key_node_at(s0.data, parent) == Ok::<KeyNodeView, RegError>(pk),
        kept_but(s0.data, d2, pk.security_offset),
        keeps_used(d2, d3),
        s0.data.len() <= d3.len(),
    ensures
        pk.subkey_list_offset != 0 && pk.subkey_list_offset != FREE ==> crate::cell::cell_payload_spec(
            d3,
            pk.subkey_list_offset,
        ) is Ok,
        lists_freed(d3, pk.subkey_list_offset) == lists_freed(s0.data, pk.subkey_list_offset),
        forall|k: int|
            0 <= k < lists_freed(d3, pk.subkey_list_offset).len() ==> #[trigger] lists_freed(
                d3,
                pk.subkey_list_offset,
            )[k] + 0x1004 <= d3.len(),
        cell_kept(s0.data, d3, parent),
{
    reveal(insert_ready);
    reveal(kept_but);
    lemma_insert_kept_on(s0, d2, d3, pk.security_offset);
    lemma_insert_frees_ok(s0, d3, parent, pk);
    assert(cell_kept(s0.data, d3, parent));
}

/// After a ready insertion frees the old subkey list, the parent has room
/// for its subkey list and count fields.
#[verifier::spinoff_prover]
proof fn lemma_insert_step3(
    s0: HiveView,
    d3: Seq<u8>,
    d4: Seq<u8>,
    parent: u32,
    name: Seq<char>,
    pk: KeyNodeView,
    l: u32,
    count: u32,
)
    requires
        insert_ready(s0, parent, name),
        key_node_at(s0.data, parent) == Ok::<KeyNodeView, RegError>(pk),
        cell_kept(s0.data, d3, parent),
        lists_freed(d3, pk.subkey_list_offset) == lists_freed(s0.data, pk.subkey_list_offset),
        d4.len() == d3.len(),
        forall|i: int|
            0 <= i < d3.len() && outside_headers(lists_freed(d3, pk.subkey_list_offset), i)
                ==> #[trigger] d4[i] == d3[i],
    ensures
        crate::hbin::payload_range(d4, parent) == crate::hbin::payload_range(s0.data, parent),
        crate::cell::set_field_spec(d4, parent, crate::cell::NK_SUBKEY_LIST as int, l) is Ok,
        crate::cell::set_field_spec(
            crate::cell::set_field_spec(d4, parent, crate::cell::NK_SUBKEY_LIST as int, l)->Ok_0,
            parent,
            crate::cell::NK_SUBKEY_COUNT as int,
            count,
        ) is Ok,
{
    reveal(insert_ready);
    let fs = lists_freed(s0.data, pk.subkey_list_offset);
    assert forall|k: int| 0 <= k < fs.len() implies used_tile(s0.data, #[trigger] fs[k] + 0x1000) && fs[k]
        != parent by {}
    lemma_parent_fields_ok(s0, d3, d4, parent, fs, l, count);
}

} // verus!

verus! {

/// The payload of a key node named `name` holds 76 bytes and the stored
/// name.
proof fn lemma_key_node_bytes_len(name: Seq<char>, parent: u32, security: u32)
    ensures
        crate::cell::key_node_bytes(name, parent, security).len() == 76 + crate::cell::name_to_bytes(
            name,
            vstd::utf8::is_ascii_chars(name),
        ).len(),
{
}

} // verus!

verus! {

/// A ready insertion leaves the security cell it shares readable for the
/// next reference count increment: its size and signature are as they
/// were.
#[verifier::spinoff_prover]
#[verifier::rlimit(60)]
proof fn lemma_insert_sk(
    s0: HiveView,
    s1: Seq<u8>,
    s2: Seq<u8>,
    s3: Seq<u8>,
    s4: Seq<u8>,
    s5: Seq<u8>,
    s6: Seq<u8>,
    parent: u32,
    name: Seq<char>,
    pk: KeyNodeView,
    l: u32,
    n: u32,
)
    requires
        insert_ready(s0, parent, name),
        key_node_at(s0.data, parent) == Ok::<KeyNodeView, RegError>(pk),
        crate::cell::incr_refcount_spec(s0.data, pk.security_offset) == Ok::<Seq<u8>, RegError>(s1),
        keeps_used(s1, s2),
        keeps_used(s2, s3),
        lists_freed(s3, pk.subkey_list_offset) == lists_freed(s0.data, pk.subkey_list_offset),
        s4.len() == s3.len(),
        forall|i: int|
            0 <= i < s3.len() && outside_headers(lists_freed(s3, pk.subkey_list_offset), i)
                ==> #[trigger] s4[i] == s3[i],
        crate::hbin::payload_range(s4, parent) == crate::hbin::payload_range(s0.data, parent),
        crate::cell::set_field_spec(s4, parent, crate::cell::NK_SUBKEY_LIST as int, l) == Ok::<
            Seq<u8>,
            RegError,
        >(s5),
        crate::cell::set_field_spec(s5, parent, crate::cell::NK_SUBKEY_COUNT as int, n) == Ok::<
            Seq<u8>,
            RegError,
        >(s6),
    ensures
        crate::cell::incr_refcount_spec(s6, pk.security_offset) is Ok,
        refcount_bumped(s0.data, s6, pk.security_offset),
{
    reveal(insert_ready);
    let d0 = s0.data;
    let sk = pk.security_offset;
    let c = sk + 0x1000;
    let pc = parent + 0x1000;
    let fs = lists_freed(d0, pk.subkey_list_offset);
    let (a, b) = crate::hbin::payload_range(d0, sk).unwrap();
    let v = vstd::wrapping::u32_specs::wrapping_add(u32_at(d0, a + 12), 1);
    crate::tiling::lemma_tile_bounds(d0, c);
    crate::tiling::lemma_tile_bounds(d0, pc);
    crate::tiling::lemma_tiles_apart_at(d0, c, pc);
    crate::bytes::lemma_put_u32(d0, a + 12, v);
    crate::tiling::lemma_write_in_tile(d0, s1, c, a + 12, a + 16);
    assert(used_tile(s1, c));
    lemma_used_kept(s1, s2, sk);
    lemma_used_kept(s2, s3, sk);
    let (pa, pb) = crate::hbin::payload_range(s4, parent).unwrap();
    crate::bytes::lemma_put_u32(s4, pa + crate::cell::NK_SUBKEY_LIST as int, l);
    assert(crate::hbin::payload_range(s5, parent) == crate::hbin::payload_range(s4, parent)) by {
        assert(s5[pc] == s4[pc] && s5[pc + 1] == s4[pc + 1] && s5[pc + 2] == s4[pc + 2] && s5[pc + 3]
            == s4[pc + 3]);
    }
    crate::bytes::lemma_put_u32(s5, pa + crate::cell::NK_SUBKEY_COUNT as int, n);
    assert forall|x: int| c <= x < a + 2 implies #[trigger] s6[x] == d0[x] by {
        assert(s1[x] == d0[x]);
        assert(s2[x] == s1[x]);
        assert(s3[x] == s2[x]);
        assert(outside_headers(fs, x)) by {
            assert forall|j: int| 0 <= j < fs.len() implies !(#[trigger] fs[j] + 0x1000 <= x < fs[j] + 0x1004) by {
                crate::tiling::lemma_tiles_apart_at(d0, c, fs[j] + 0x1000);
                crate::tiling::lemma_tile_bounds(d0, fs[j] + 0x1000);
            }
        }
        assert(s4[x] == s3[x]);
        assert(s5[x] == s4[x]);
    }
    assert(s6[c] == d0[c] && s6[c + 1] == d0[c + 1] && s6[c + 2] == d0[c + 2] && s6[c + 3] == d0[c + 3]);
    assert(crate::hbin::payload_range(s6, sk) == crate::hbin::payload_range(d0, sk));
    assert(s6[a] == d0[a] && s6[a + 1] == d0[a + 1]);
    assert forall|x: int| a + 12 <= x < a + 16 implies #[trigger] s6[x] == s1[x] by {
        assert(s2[x] == s1[x]);
        assert(s3[x] == s2[x]);
        assert(outside_headers(fs, x)) by {
            assert forall|j: int| 0 <= j < fs.len() implies !(#[trigger] fs[j] + 0x1000 <= x < fs[j] + 0x1004) by {
                crate::tiling::lemma_tiles_apart_at(d0, c, fs[j] + 0x1000);
                crate::tiling::lemma_tile_bounds(d0, fs[j] + 0x1000);
            }
        }
        assert(s4[x] == s3[x]);
        assert(s5[x] == s4[x]);
    }
    assert(u32_at(s6, a + 12) == u32_at(s1, a + 12));
}

/// The reference count of the security cell at `sk` went up by one (with
/// wrap-around) from `d` to `d2`, where the cell lies as before.
pub open spec fn refcount_bumped(d: Seq<u8>, d2: Seq<u8>, sk: u32) -> bool {
    match crate::hbin::payload_range(d, sk) {
        Ok((a, b)) => {
            &&& b - a >= 16
            &&& crate::hbin::payload_range(d2, sk) == crate::hbin::payload_range(d, sk)
            &&& u32_at(d2, a + 12) == vstd::wrapping::u32_specs::wrapping_add(u32_at(d, a + 12), 1)
        },
        Err(_) => false,
    }
}

/// The key node at `o` of `d2` is a new key named `name`, with no subkey
/// or value, sharing the security cell of the key node at `parent` of `d`.
pub open spec fn new_key_at(d: Seq<u8>, d2: Seq<u8>, parent: u32, name: Seq<char>, o: u32) -> bool {
    key_node_at(d2, o) == Ok::<KeyNodeView, RegError>(
        KeyNodeView {
            name,
            subkey_count: 0,
            subkey_list_offset: FREE,
            value_count: 0,
            value_list_offset: FREE,
            security_offset: key_node_at(d, parent)->Ok_0.security_offset,
        },
    )
}

/// What an insertion leaves at the new key node.
proof fn lemma_insert_done_node(h: HiveView, h2: HiveView, parent: u32, name: Seq<char>, o: u32)
    requires
        insert_done(h, h2, parent, name, o),
    ensures
        new_key_at(h.data, h2.data, parent, name, o),
{
    reveal(insert_done);
    reveal(insert_core_done);
}

/// The subkeys of `parent` after the insertion of `name` at `o`: the old
/// entries and the new one, sorted by name, and counted by the parent.
pub open spec fn insert_listing(d: Seq<u8>, d2: Seq<u8>, parent: u32, name: Seq<char>, o: u32) -> bool {
    match (child_entries_spec(d, parent), child_entries_spec(d2, parent)) {
        (Ok(es0), Ok(es2)) => {
            &&& es2.to_multiset() == es0.push((name, o)).to_multiset()
            &&& sorted_by_name(es2)
            &&& key_node_at(d2, parent) matches Ok(pk2) && pk2.subkey_count as int == es0.len() + 1
        },
        _ => false,
    }
}

} // verus!

verus! {

/// The security cell that creating the keys along `path` first shares (the
/// one of the key under which the first missing component goes) reads for
/// a reference count increment.
pub open spec fn create_security_ok(h: HiveView, path: Seq<char>) -> bool {
    match first_missing(h.data, h.header.root_cell_offset, path_parts(path)) {
        Some((k, c)) => crate::cell::incr_refcount_spec(
            h.data,
            key_node_at(h.data, c)->Ok_0.security_offset,
        ) is Ok,
        None => true,
    }
}

/// An insertion grows the hive by at most a megabyte.
proof fn lemma_insert_done_len(h: HiveView, h2: HiveView, parent: u32, name: Seq<char>, o: u32)
    requires
        insert_done(h, h2, parent, name, o),
    ensures
        h2.data.len() <= h.data.len() + 0x10_0000,
{
    reveal(insert_done);
    reveal(insert_chain_done);
}

} // verus!
