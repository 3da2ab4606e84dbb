//! Runtime schema model: field kinds, fields, and messages with a per-message
//! tag index chosen at construction between a dense array and a sorted list.

use std::rc::Rc;
use vstd::prelude::*;
use vstd::string::StringSliceAdditionalSpecFns;
use vstd::utf8::encode_utf8;

verus! {

/// The value category of one field. `Message` and `Map` share ownership of
/// the referenced message; a map's entry message has exactly two fields, the
/// key at tag 1 and the value at tag 2.
#[derive(Clone)]
pub enum Kind {
    Double,
    Float,
    Int32,
    Int64,
    Uint32,
    Uint64,
    Sint32,
    Sint64,
    Fixed32,
    Fixed64,
    Sfixed32,
    Sfixed64,
    Bool,
    Str,
    Bytes,
    Message(Rc<Message>),
    MapEntry(Rc<Message>),
}

/// One field of a message: a name, a wire tag, a kind, and whether the field
/// is repeated.
#[derive(Clone)]
pub struct Field {
    pub name: String,
    pub tag: u32,
    pub kind: Kind,
    pub repeated: bool,
}

/// The tag index of a message: either a dense array mapping each tag below
/// its length to a field position (`-1` marking an absent tag), or the field
/// positions sorted by tag for binary search.
#[derive(Clone)]
enum TagIndex {
    Dense(Vec<Option<usize>>),
    Sorted(Vec<usize>),
}

/// A message schema: named, with an ordered field sequence and a tag index
/// that agrees with it.
#[derive(Clone)]
pub struct Message {
    name: String,
    fields: Vec<Field>,
    tags: TagIndex,
}

/// The UTF-8 bytes of a field's name.
pub open spec fn field_name_bytes(f: Field) -> Seq<u8> {
    encode_utf8(f.name@)
}

/// Position of the first field carrying `tag`, scanning from `k`.
pub open spec fn spec_field_idx_from(fields: Seq<Field>, tag: u32, k: int) -> Option<int>
    decreases fields.len() - k,
{
    if k < 0 || k >= fields.len() {
        None
    } else if fields[k].tag == tag {
        Some(k)
    } else {
        spec_field_idx_from(fields, tag, k + 1)
    }
}

/// Position of the field carrying `tag`, if any.
pub open spec fn spec_field_idx(fields: Seq<Field>, tag: u32) -> Option<int> {
    spec_field_idx_from(fields, tag, 0)
}

/// Position of the first field whose name has the UTF-8 bytes `name`,
/// scanning from `k`.
pub open spec fn spec_field_by_name_from(fields: Seq<Field>, name: Seq<u8>, k: int) -> Option<int>
    decreases fields.len() - k,
{
    if k < 0 || k >= fields.len() {
        None
    } else if field_name_bytes(fields[k]) == name {
        Some(k)
    } else {
        spec_field_by_name_from(fields, name, k + 1)
    }
}

/// Position of the first field whose name has the UTF-8 bytes `name`.
pub open spec fn spec_field_by_name(fields: Seq<Field>, name: Seq<u8>) -> Option<int> {
    spec_field_by_name_from(fields, name, 0)
}

/// Whether some field carries `tag`.
pub open spec fn has_tag(fields: Seq<Field>, tag: u32) -> bool {
    exists|k: int| 0 <= k < fields.len() && (#[trigger] fields[k]).tag == tag
}

/// The tag lookup finds a field exactly when one carries the tag, and then
/// the first one.
pub proof fn lemma_field_idx(fields: Seq<Field>, tag: u32)
    ensures
        spec_field_idx(fields, tag) matches Some(k) ==> 0 <= k < fields.len() && fields[k].tag
            == tag,
        (spec_field_idx(fields, tag) is Some) == has_tag(fields, tag),
{
    lemma_field_idx_from(fields, tag, 0);
    if has_tag(fields, tag) {
        let k = choose|k: int| 0 <= k < fields.len() && (#[trigger] fields[k]).tag == tag;
        lemma_field_idx_from_finds(fields, tag, 0, k);
    }
}

/// A found position carries the tag and lies in range.
proof fn lemma_field_idx_from(fields: Seq<Field>, tag: u32, k: int)
    ensures
        spec_field_idx_from(fields, tag, k) matches Some(p) ==> k <= p < fields.len()
            && fields[p].tag == tag,
    decreases fields.len() - k,
{
    if 0 <= k < fields.len() && fields[k].tag != tag {
        lemma_field_idx_from(fields, tag, k + 1);
    }
}

/// A field carrying the tag at or after the scan start makes the scan find
/// one.
proof fn lemma_field_idx_from_finds(fields: Seq<Field>, tag: u32, k: int, w: int)
    requires
        0 <= k <= w < fields.len(),
        fields[w].tag == tag,
    ensures
        spec_field_idx_from(fields, tag, k) is Some,
    decreases fields.len() - k,
{
    if fields[k].tag != tag {
        if k + 1 <= w {
            lemma_field_idx_from_finds(fields, tag, k + 1, w);
        }
    }
}

/// As `lemma_field_idx`, for the name lookup.
pub proof fn lemma_field_by_name(fields: Seq<Field>, name: Seq<u8>)
    ensures
        spec_field_by_name(fields, name) matches Some(k) ==> 0 <= k < fields.len()
            && field_name_bytes(fields[k]) == name,
        (spec_field_by_name(fields, name) is Some) == exists|k: int|
            0 <= k < fields.len() && field_name_bytes(#[trigger] fields[k]) == name,
{
    lemma_field_by_name_from(fields, name, 0);
    if exists|k: int| 0 <= k < fields.len() && field_name_bytes(#[trigger] fields[k]) == name {
        let k = choose|k: int|
            0 <= k < fields.len() && field_name_bytes(#[trigger] fields[k]) == name;
        lemma_field_by_name_from_finds(fields, name, 0, k);
    }
}

/// A found position carries the name and lies in range.
proof fn lemma_field_by_name_from(fields: Seq<Field>, name: Seq<u8>, k: int)
    ensures
        spec_field_by_name_from(fields, name, k) matches Some(p) ==> k <= p < fields.len()
            && field_name_bytes(fields[p]) == name,
    decreases fields.len() - k,
{
    if 0 <= k < fields.len() && field_name_bytes(fields[k]) != name {
        lemma_field_by_name_from(fields, name, k + 1);
    }
}

/// A field carrying the name at or after the scan start makes the scan find
/// one.
proof fn lemma_field_by_name_from_finds(fields: Seq<Field>, name: Seq<u8>, k: int, w: int)
    requires
        0 <= k <= w < fields.len(),
        field_name_bytes(fields[w]) == name,
    ensures
        spec_field_by_name_from(fields, name, k) is Some,
    decreases fields.len() - k,
{
    if field_name_bytes(fields[k]) != name {
        if k + 1 <= w {
            lemma_field_by_name_from_finds(fields, name, k + 1, w);
        }
    }
}

/// Whether position `k` appears in the order vector.
pub open spec fn appears(v: Seq<usize>, k: int) -> bool {
    exists|p: int| 0 <= p < v.len() && #[trigger] v[p] == k
}

/// Field tags are in the legal range and no tag repeats.
pub open spec fn fields_tags_wf(fields: Seq<Field>) -> bool {
    (forall|k: int| 0 <= k < fields.len() ==> 1 <= (#[trigger] fields[k]).tag <= 0x1fffffff)
        && (forall|k: int, l: int|
        0 <= k < fields.len() && 0 <= l < fields.len() && k != l ==> (#[trigger] fields[k]).tag != (
        #[trigger] fields[l]).tag)
}

impl Kind {
    /// Any message a kind references is itself well-formed, and a map entry
    /// has exactly its key and value fields.
    pub open spec fn wf(&self) -> bool
        decreases self,
    {
        match self {
            Kind::Message(m) => m.wf(),
            Kind::MapEntry(e) => e.wf() && e.spec_fields().len() == 2,
            _ => true,
        }
    }
}

impl Message {
    /// The message name, as characters.
    pub closed spec fn spec_name(&self) -> Seq<char> {
        self.name@
    }

    /// The ordered field sequence.
    pub closed spec fn spec_fields(&self) -> Seq<Field> {
        self.fields@
    }

    /// The tag index agrees with the field sequence.
    pub closed spec fn index_ok(&self) -> bool {
        match self.tags {
            TagIndex::Dense(v) => (forall|t: int|
                0 <= t < v@.len() ==> match #[trigger] v@[t] {
                    Some(i) => 0 <= i < self.fields@.len() && self.fields@[i as int].tag as int
                        == t,
                    None => forall|k: int|
                        0 <= k < self.fields@.len() ==> (#[trigger] self.fields@[k]).tag as int
                            != t,
                }) && (forall|k: int|
                0 <= k < self.fields@.len() ==> (#[trigger] self.fields@[k]).tag < v@.len()),
            TagIndex::Sorted(v) => v@.len() == self.fields@.len() && (forall|p: int|
                0 <= p < v@.len() ==> 0 <= #[trigger] v@[p] < self.fields@.len()) && (forall|p: int, q: int|
                #![trigger v@[p], v@[q]]
                0 <= p < q < v@.len() ==> self.fields@[v@[p] as int].tag < self.fields@[v@[q] as int].tag) && (forall|k: int|
                0 <= k < self.fields@.len() ==> #[trigger] appears(v@, k)),
        }
    }

    /// A message is well-formed when its tags are legal and unique, its tag
    /// index agrees with its fields, and every referenced message is in turn
    /// well-formed.
    pub open spec fn wf(&self) -> bool
        decreases self,
    {
        self.index_ok() && fields_tags_wf(self.spec_fields()) && (forall|k: int|
            0 <= k < self.spec_fields().len() ==> (#[trigger] self.spec_fields()[k]).kind.wf())
    }

    /// Builds a message. The tag index strategy is picked here, once: a
    /// dense array when the largest tag is small relative to the field
    /// count, a sorted position list otherwise. `field_map` is accepted as a
    /// hint that name lookups are expected; lookup behaviour does not depend
    /// on it.
    pub fn new(name: String, fields: Vec<Field>, field_map: bool) -> (r: Self)
        requires
            fields_tags_wf(fields@),
            forall|k: int| 0 <= k < fields@.len() ==> (#[trigger] fields@[k]).kind.wf(),
        ensures
            r.wf(),
            r.spec_name() == name@,
            r.spec_fields() == fields@,
    {
        let _ = field_map;
        let mut max_tag: u32 = 0;
        let mut k: usize = 0;
        while k < fields.len()
            invariant
                0 <= k <= fields@.len(),
                forall|l: int| 0 <= l < k ==> (#[trigger] fields@[l]).tag <= max_tag,
                max_tag <= 0x1fffffff,
                fields_tags_wf(fields@),
            decreases fields@.len() - k,
        {
            if fields[k].tag > max_tag {
                max_tag = fields[k].tag;
            }
            k = k + 1;
        }
        let dense = (max_tag as u128) < (fields.len() as u128) + (fields.len() as u128) / 4 + 3;
        let tags = if dense {
            let size: usize = (max_tag as usize) + 1;
            let mut v: Vec<Option<usize>> = Vec::new();
            let mut t: usize = 0;
            while t < size
                invariant
                    0 <= t <= size,
                    v@.len() == t,
                    fields_tags_wf(fields@),
                    forall|u: int|
                        0 <= u < t ==> match #[trigger] v@[u] {
                            Some(i) => 0 <= i < fields@.len() && fields@[i as int].tag as int == u,
                            None => forall|l: int|
                                0 <= l < fields@.len() ==> (#[trigger] fields@[l]).tag as int != u,
                        },
                    size <= 0x20000000,
                decreases size - t,
            {
                let found: Option<usize> = Self::find_tag(&fields, t as u32);
                proof {
                    lemma_field_idx(fields@, t as u32);
                    match found {
                        Some(i) => {
                            assert(fields@[i as int].tag == t as u32);
                        },
                        None => {
                            assert(!has_tag(fields@, t as u32));
                            assert forall|l: int|
                                0 <= l < fields@.len() implies (#[trigger] fields@[l]).tag as int
                                != t as int by {
                                if fields@[l].tag as int == t as int {
                                    assert(fields@[l].tag == t as u32);
                                    assert(has_tag(fields@, t as u32));
                                }
                            }
                        },
                    }
                }
                v.push(found);
                t = t + 1;
            }
            proof {
                assert forall|l: int| 0 <= l < fields@.len() implies (#[trigger] fields@[l]).tag < (
                v@.len() as u32) by {
                    assert(fields@[l].tag <= max_tag);
                }
            }
            TagIndex::Dense(v)
        } else {
            let mut order: Vec<usize> = Vec::new();
            let mut idx: usize = 0;
            while idx < fields.len()
                invariant
                    0 <= idx <= fields@.len(),
                    order@.len() == idx,
                    fields_tags_wf(fields@),
                    forall|p: int| 0 <= p < order@.len() ==> 0 <= #[trigger] order@[p] < idx,
                    forall|p: int, q: int|
                        #![trigger order@[p], order@[q]]
                        0 <= p < q < order@.len() ==> fields@[order@[p] as int].tag < fields@[order@[q] as int].tag,
                    forall|l: int| 0 <= l < idx ==> #[trigger] appears(order@, l),
                decreases fields@.len() - idx,
            {
                let tag_new: u32 = fields[idx].tag;
                let mut p: usize = 0;
                while p < order.len() && fields[order[p]].tag < tag_new
                    invariant
                        0 <= p <= order@.len(),
                        order@.len() == idx <= fields@.len(),
                        forall|q: int| 0 <= q < order@.len() ==> 0 <= #[trigger] order@[q] < idx,
                        forall|q: int|
                            0 <= q < p ==> fields@[#[trigger] order@[q] as int].tag < tag_new,
                        tag_new == fields@[idx as int].tag,
                    decreases order@.len() - p,
                {
                    p = p + 1;
                }
                proof {
                    if p < order@.len() {
                        assert(order@[p as int] != idx);
                        assert(fields@[order@[p as int] as int].tag != tag_new);
                    }
                }
                let ghost pre = order@;
                order.insert(p, idx);
                proof {
                    assert forall|a: int, b: int| 0 <= a < b < order@.len() implies fields@[order@[a] as int].tag < fields@[order@[b] as int].tag by {
                        if b < p {
                        } else if a < p && b == p {
                            assert(order@[b] == idx);
                            assert(order@[a] == pre[a]);
                        } else if a < p && b > p {
                            assert(order@[b] == pre[b - 1]);
                        } else if a == p {
                            assert(order@[a] == idx);
                            assert(order@[b] == pre[b - 1]);
                            assert(b - 1 >= p);
                            if b - 1 == p {
                                assert(fields@[pre[p as int] as int].tag > tag_new);
                            } else {
                                assert(fields@[pre[p as int] as int].tag > tag_new);
                                assert(fields@[pre[p as int] as int].tag <= fields@[pre[b - 1] as int].tag);
                            }
                        } else {
                            assert(order@[a] == pre[a - 1]);
                            assert(order@[b] == pre[b - 1]);
                        }
                    }
                    assert forall|l: int| 0 <= l < idx + 1 implies #[trigger] appears(
                        order@,
                        l,
                    ) by {
                        if l == idx {
                            assert(order@[p as int] == l);
                        } else {
                            assert(appears(pre, l));
                            let q0 = choose|q: int| 0 <= q < pre.len() && #[trigger] pre[q] == l;
                            if q0 < p {
                                assert(order@[q0] == l);
                            } else {
                                assert(order@[q0 + 1] == l);
                            }
                        }
                    }
                }
                idx = idx + 1;
            }
            TagIndex::Sorted(order)
        };
        Self { name, fields, tags }
    }

    /// Linear scan for the field carrying `tag`.
    fn find_tag(fields: &Vec<Field>, tag: u32) -> (r: Option<usize>)
        ensures
            match r {
                Some(i) => spec_field_idx(fields@, tag) == Some(i as int),
                None => spec_field_idx(fields@, tag) is None,
            },
    {
        let mut k: usize = 0;
        while k < fields.len()
            invariant
                0 <= k <= fields@.len(),
                spec_field_idx(fields@, tag) == spec_field_idx_from(fields@, tag, k as int),
            decreases fields@.len() - k,
        {
            if fields[k].tag == tag {
                return Some(k);
            }
            k = k + 1;
        }
        None
    }

    /// The message name.
    pub fn get_name(&self) -> (r: &str)
        ensures
            r@ == self.spec_name(),
    {
        self.name.as_str()
    }

    /// The ordered field sequence.
    pub fn get_fields(&self) -> (r: &[Field])
        ensures
            r@ == self.spec_fields(),
    {
        self.fields.as_slice()
    }

    /// Looks a field up by name: the first field whose name has the bytes of
    /// `name`, scanning in declaration order.
    pub fn get_by_name(&self, name: &str) -> (r: Option<&Field>)
        ensures
            match r {
                Some(f) => spec_field_by_name(self.spec_fields(), name.spec_bytes()) matches Some(k)
                    && *f == self.spec_fields()[k],
                None => spec_field_by_name(self.spec_fields(), name.spec_bytes()) is None,
            },
    {
        let name_bytes: &[u8] = name.as_bytes();
        let mut k: usize = 0;
        while k < self.fields.len()
            invariant
                0 <= k <= self.fields@.len(),
                name_bytes@ == name.spec_bytes(),
                spec_field_by_name(self.fields@, name.spec_bytes()) == spec_field_by_name_from(
                    self.fields@,
                    name.spec_bytes(),
                    k as int,
                ),
            decreases self.fields@.len() - k,
        {
            if bytes_eq(self.fields[k].name.as_str().as_bytes(), name_bytes) {
                return Some(&self.fields[k]);
            }
            k = k + 1;
        }
        None
    }

    /// Looks a field up by wire tag, through the tag index.
    pub fn get_by_tag(&self, tag: u32) -> (r: Option<&Field>)
        requires
            self.wf(),
        ensures
            match r {
                Some(f) => spec_field_idx(self.spec_fields(), tag) matches Some(k) && *f
                    == self.spec_fields()[k],
                None => spec_field_idx(self.spec_fields(), tag) is None,
            },
    {
        proof {
            lemma_field_idx(self.fields@, tag);
        }
        match &self.tags {
            TagIndex::Dense(v) => {
                if (tag as usize) < v.len() {
                    match v[tag as usize] {
                        Some(e) => {
                            proof {
                                assert(v@[tag as int] == Some(e));
                                assert(self.fields@[e as int].tag == tag);
                                assert(has_tag(self.fields@, tag));
                            }
                            let f: &Field = &self.fields[e];
                            proof {
                                let k = spec_field_idx(self.fields@, tag)->Some_0;
                                assert(self.fields@[k].tag == tag);
                                if k != e as int {
                                    assert(self.fields@[k].tag != self.fields@[e as int].tag);
                                }
                            }
                            Some(f)
                        },
                        None => {
                            proof {
                                assert(v@[tag as int] is None);
                                if has_tag(self.fields@, tag) {
                                    let k = choose|k: int|
                                        0 <= k < self.fields@.len() && (#[trigger] self.fields@[k]).tag
                                            == tag;
                                    assert(self.fields@[k].tag as int != tag as int);
                                }
                            }
                            None
                        },
                    }
                } else {
                    proof {
                        if has_tag(self.fields@, tag) {
                            let k = choose|k: int|
                                0 <= k < self.fields@.len() && (#[trigger] self.fields@[k]).tag
                                    == tag;
                            assert(self.fields@[k].tag < v@.len());
                        }
                    }
                    None
                }
            },
            TagIndex::Sorted(v) => {
                let mut lo: usize = 0;
                let mut hi: usize = v.len();
                while lo < hi
                    invariant
                        0 <= lo <= hi <= v@.len(),
                        v@.len() == self.fields@.len(),
                        self.wf(),
                        self.tags == TagIndex::Sorted(*v),
                        forall|p: int|
                            0 <= p < lo ==> self.fields@[#[trigger] v@[p] as int].tag < tag,
                        forall|p: int|
                            hi <= p < v@.len() ==> self.fields@[#[trigger] v@[p] as int].tag
                                > tag,
                    decreases hi - lo,
                {
                    let mid: usize = lo + (hi - lo) / 2;
                    let e: usize = v[mid];
                    let t: u32 = self.fields[e].tag;
                    if t == tag {
                        let f: &Field = &self.fields[e];
                        proof {
                            lemma_field_idx(self.fields@, tag);
                            assert(self.fields@[e as int].tag == tag);
                            assert(has_tag(self.fields@, tag));
                            let k = spec_field_idx(self.fields@, tag)->Some_0;
                            assert(self.fields@[k].tag == tag);
                            if k != e as int {
                                assert(self.fields@[k].tag != self.fields@[e as int].tag);
                            }
                        }
                        return Some(f);
                    } else if t < tag {
                        proof {
                            assert forall|p: int|
                                0 <= p < mid + 1 implies self.fields@[#[trigger] v@[p] as int].tag < tag by {
                                if p < mid {
                                    assert(self.fields@[v@[p] as int].tag < self.fields@[v@[mid as int] as int].tag);
                                }
                            }
                        }
                        lo = mid + 1;
                    } else {
                        proof {
                            assert forall|p: int|
                                mid <= p < v@.len() implies self.fields@[#[trigger] v@[p] as int].tag > tag by {
                                if p > mid {
                                    assert(self.fields@[v@[mid as int] as int].tag < self.fields@[v@[p] as int].tag);
                                }
                            }
                        }
                        hi = mid;
                    }
                }
                proof {
                    lemma_field_idx(self.fields@, tag);
                    if has_tag(self.fields@, tag) {
                        let k = choose|k: int|
                            0 <= k < self.fields@.len() && (#[trigger] self.fields@[k]).tag == tag;
                        assert(appears(v@, k));
                        let p = choose|p: int| 0 <= p < v@.len() && #[trigger] v@[p] == k;
                        assert(self.fields@[v@[p] as int].tag == tag);
                        if p < lo as int {
                            assert(self.fields@[v@[p] as int].tag < tag);
                        } else {
                            assert(self.fields@[v@[p] as int].tag > tag);
                        }
                    }
                }
                None
            },
        }
    }
}

/// Byte-slice equality, compared element by element.
pub fn bytes_eq(a: &[u8], b: &[u8]) -> (r: bool)
    ensures
        r == (a@ == b@),
{
    if a.len() != b.len() {
        proof {
            assert(a@.len() != b@.len());
        }
        return false;
    }
    let mut k: usize = 0;
    while k < a.len()
        invariant
            a@.len() == b@.len(),
            0 <= k <= a@.len(),
            forall|l: int| 0 <= l < k ==> a@[l] == b@[l],
        decreases a@.len() - k,
    {
        if a[k] != b[k] {
            return false;
        }
        k = k + 1;
    }
    proof {
        assert(a@ =~= b@);
    }
    true
}

} // verus!
