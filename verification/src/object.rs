//! The OSM object model: nodes, ways and relations, their tags and their
//! canonical string identities.

use vstd::prelude::*;
use crate::numbers::{dec_digits, u64_to_string};
use crate::strutil::str_eq;

verus! {

/// The three kinds of OSM object.
#[derive(Clone, Copy, Debug, PartialEq, Eq, Structural)]
pub enum OSMObjectType {
    Node,
    Way,
    Relation,
}

/// The one-letter prefix of an object kind as used in canonical ids.
pub open spec fn kind_letter(t: OSMObjectType) -> char {
    match t {
        OSMObjectType::Node => 'n',
        OSMObjectType::Way => 'w',
        OSMObjectType::Relation => 'r',
    }
}

/// A member of a relation: a reference to another object plus a role.
#[derive(Clone, Debug)]
pub struct OSMRelationMember {
    pub m_type: OSMObjectType,
    pub ref_id: u64,
    pub role: String,
}

/// Ghost mirror of a relation member.
pub struct MemberV {
    pub m_type: OSMObjectType,
    pub ref_id: nat,
    pub role: Seq<char>,
}

impl View for OSMRelationMember {
    type V = MemberV;

    open spec fn view(&self) -> MemberV {
        MemberV { m_type: self.m_type, ref_id: self.ref_id as nat, role: self.role@ }
    }
}

/// A single `key=value` tag.
#[derive(Clone, Debug)]
pub struct Tag {
    pub key: String,
    pub value: String,
}

impl View for Tag {
    type V = (Seq<char>, Seq<char>);

    open spec fn view(&self) -> (Seq<char>, Seq<char>) {
        (self.key@, self.value@)
    }
}

/// The value bound to `key` in a tag list: the first match wins.
pub open spec fn tag_value(tags: Seq<(Seq<char>, Seq<char>)>, key: Seq<char>) -> Option<Seq<char>>
    decreases tags.len(),
{
    if tags.len() == 0 {
        None
    } else if tags[0].0 == key {
        Some(tags[0].1)
    } else {
        tag_value(tags.drop_first(), key)
    }
}

/// The kind-specific payload of an object.  Coordinates are held in
/// fixed-point form: degrees scaled by `10^7`, the native resolution of
/// OSM data.
#[derive(Clone, Debug)]
pub enum OSMObjectSpecifics {
    Node { lon7: i64, lat7: i64 },
    Way { nodes: Vec<u64> },
    Relation { members: Vec<OSMRelationMember> },
}

/// Ghost mirror of the kind-specific payload.
pub enum SpecificsV {
    Node { lon7: int, lat7: int },
    Way { nodes: Seq<nat> },
    Relation { members: Seq<MemberV> },
}

impl View for OSMObjectSpecifics {
    type V = SpecificsV;

    open spec fn view(&self) -> SpecificsV {
        match self {
            OSMObjectSpecifics::Node { lon7, lat7 } => SpecificsV::Node {
                lon7: *lon7 as int,
                lat7: *lat7 as int,
            },
            OSMObjectSpecifics::Way { nodes } => SpecificsV::Way {
                nodes: nodes@.map_values(|n: u64| n as nat),
            },
            OSMObjectSpecifics::Relation { members } => SpecificsV::Relation {
                members: members@.map_values(|m: OSMRelationMember| m@),
            },
        }
    }
}

/// One OSM object: a node, way or relation together with the attributes
/// every kind carries.
#[derive(Clone, Debug)]
pub struct OSMObject {
    pub id: u64,
    pub timestamp: String,
    pub version: u64,
    pub changeset: u64,
    pub tags: Vec<Tag>,
    pub specifics: OSMObjectSpecifics,
}

/// Ghost mirror of an object.
pub struct OSMObjectV {
    pub id: nat,
    pub timestamp: Seq<char>,
    pub version: nat,
    pub changeset: nat,
    pub tags: Seq<(Seq<char>, Seq<char>)>,
    pub specifics: SpecificsV,
}

impl View for OSMObject {
    type V = OSMObjectV;

    open spec fn view(&self) -> OSMObjectV {
        OSMObjectV {
            id: self.id as nat,
            timestamp: self.timestamp@,
            version: self.version as nat,
            changeset: self.changeset as nat,
            tags: self.tags@.map_values(|t: Tag| t@),
            specifics: self.specifics@,
        }
    }
}

impl SpecificsV {
    pub open spec fn object_type(self) -> OSMObjectType {
        match self {
            SpecificsV::Node { .. } => OSMObjectType::Node,
            SpecificsV::Way { .. } => OSMObjectType::Way,
            SpecificsV::Relation { .. } => OSMObjectType::Relation,
        }
    }
}

impl OSMObjectV {
    pub open spec fn object_type(self) -> OSMObjectType {
        self.specifics.object_type()
    }

    /// The canonical id string of an object: kind letter plus decimal id.
    pub open spec fn unique_id(self) -> Seq<char> {
        seq![kind_letter(self.object_type())] + dec_digits(self.id)
    }

    pub open spec fn tag(self, key: Seq<char>) -> Option<Seq<char>> {
        tag_value(self.tags, key)
    }
}

/// The canonical id of a referenced object, given its kind and number.
pub open spec fn spec_unique_reference(t: OSMObjectType, id: nat) -> Seq<char> {
    seq![kind_letter(t)] + dec_digits(id)
}

impl MemberV {
    /// The canonical id string of the object a member points at.
    pub open spec fn unique_reference(self) -> Seq<char> {
        spec_unique_reference(self.m_type, self.ref_id)
    }
}

/// The one-letter prefix of a kind, as a string slice.
pub fn kind_letter_str(t: OSMObjectType) -> (r: &'static str)
    ensures
        r@ == seq![kind_letter(t)],
{
    proof {
        reveal_strlit("n");
        reveal_strlit("w");
        reveal_strlit("r");
    }
    match t {
        OSMObjectType::Node => "n",
        OSMObjectType::Way => "w",
        OSMObjectType::Relation => "r",
    }
}

/// The canonical id string for a kind and numeric id.
pub fn unique_reference_of(t: OSMObjectType, id: u64) -> (r: String)
    ensures
        r@ == spec_unique_reference(t, id as nat),
{
    let mut s = kind_letter_str(t).to_owned();
    s.append(u64_to_string(id).as_str());
    s
}

impl OSMObject {
    pub fn object_type(&self) -> (t: OSMObjectType)
        ensures
            t == self@.object_type(),
    {
        match &self.specifics {
            OSMObjectSpecifics::Node { .. } => OSMObjectType::Node,
            OSMObjectSpecifics::Way { .. } => OSMObjectType::Way,
            OSMObjectSpecifics::Relation { .. } => OSMObjectType::Relation,
        }
    }

    /// The canonical id string of this object, e.g. `n42`.
    pub fn unique_id(&self) -> (r: String)
        ensures
            r@ == self@.unique_id(),
    {
        unique_reference_of(self.object_type(), self.id)
    }

    /// The value of the tag named `key`, if the object carries it.
    pub fn tag(&self, key: &str) -> (r: Option<&String>)
        ensures
            match r {
                Some(v) => self@.tag(key@) == Some(v@),
                None => self@.tag(key@) is None,
            },
    {
        let mut i: usize = 0;
        proof {
            assert(self@.tags.skip(0) =~= self@.tags);
        }
        while i < self.tags.len()
            invariant
                0 <= i <= self.tags.len(),
                tag_value(self@.tags, key@) == tag_value(self@.tags.skip(i as int), key@),
            decreases self.tags.len() - i,
        {
            proof {
                assert(self@.tags.skip(i as int)[0] == self@.tags[i as int]);
                assert(self@.tags.skip(i as int).drop_first() =~= self@.tags.skip(i + 1));
            }
            if str_eq(self.tags[i].key.as_str(), key) {
                return Some(&self.tags[i].value);
            }
            i += 1;
        }
        proof {
            assert(self@.tags.skip(i as int) =~= Seq::<(Seq<char>, Seq<char>)>::empty());
        }
        None
    }

    /// Bind `key` to `value`, replacing an earlier binding of the same key.
    pub fn set_tag(&mut self, key: &str, value: String)
        ensures
            final(self)@.tag(key@) == Some::<Seq<char>>(value@),
            final(self).id == old(self).id,
            final(self).timestamp == old(self).timestamp,
            final(self).version == old(self).version,
            final(self).changeset == old(self).changeset,
            final(self).specifics == old(self).specifics,
            forall|k: Seq<char>| k != key@ ==> #[trigger] final(self)@.tag(k) == old(self)@.tag(k),
    {
        let mut i: usize = 0;
        let ghost orig = self@.tags;
        while i < self.tags.len()
            invariant
                0 <= i <= self.tags.len(),
                *self == *old(self),
                self@.tags == orig,
                forall|j: int| 0 <= j < i ==> #[trigger] orig[j].0 != key@,
            decreases self.tags.len() - i,
        {
            if str_eq(self.tags[i].key.as_str(), key) {
                self.tags.set(i, Tag { key: key.to_owned(), value });
                proof {
                    let upd = self@.tags;
                    assert(upd =~= orig.update(i as int, (key@, upd[i as int].1)));
                    lemma_tag_value_update(orig, i as int, key@, upd[i as int].1);
                }
                return;
            }
            i += 1;
        }
        self.tags.push(Tag { key: key.to_owned(), value });
        proof {
            let upd = self@.tags;
            assert(upd =~= orig + seq![(key@, value@)]);
            lemma_tag_value_append(orig, key@, value@);
        }
    }
}

/// Updating position `i`, whose key was not bound earlier in the list,
/// changes only that key's binding.
proof fn lemma_tag_value_update(tags: Seq<(Seq<char>, Seq<char>)>, i: int, key: Seq<char>, value: Seq<char>)
    requires
        0 <= i < tags.len(),
        forall|j: int| 0 <= j < i ==> #[trigger] tags[j].0 != key,
        tags[i].0 == key,
    ensures
        tag_value(tags.update(i, (key, value)), key) == Some(value),
        forall|k: Seq<char>| k != key ==> #[trigger] tag_value(tags.update(i, (key, value)), k)
            == tag_value(tags, k),
    decreases i,
{
    let upd = tags.update(i, (key, value));
    if i == 0 {
        assert(upd[0] == (key, value));
        assert(upd.drop_first() =~= tags.drop_first());
        assert forall|k: Seq<char>| k != key implies #[trigger] tag_value(upd, k) == tag_value(
            tags,
            k,
        ) by {
            assert(tag_value(upd, k) == tag_value(upd.drop_first(), k));
            assert(tag_value(tags, k) == tag_value(tags.drop_first(), k));
        }
    } else {
        assert(upd[0] == tags[0]);
        assert(upd.drop_first() =~= tags.drop_first().update(i - 1, (key, value)));
        lemma_tag_value_update(tags.drop_first(), i - 1, key, value);
        assert(tags[0].0 != key);
        assert forall|k: Seq<char>| k != key implies #[trigger] tag_value(upd, k) == tag_value(
            tags,
            k,
        ) by {
            if upd[0].0 != k {
                assert(tag_value(upd, k) == tag_value(upd.drop_first(), k));
                assert(tag_value(tags, k) == tag_value(tags.drop_first(), k));
            }
        }
    }
}

/// Appending a binding for a key that was absent binds that key and no
/// other.
proof fn lemma_tag_value_append(tags: Seq<(Seq<char>, Seq<char>)>, key: Seq<char>, value: Seq<char>)
    requires
        forall|j: int| 0 <= j < tags.len() ==> #[trigger] tags[j].0 != key,
    ensures
        tag_value(tags + seq![(key, value)], key) == Some(value),
        forall|k: Seq<char>| k != key ==> #[trigger] tag_value(tags + seq![(key, value)], k)
            == tag_value(tags, k),
    decreases tags.len(),
{
    let ext = tags + seq![(key, value)];
    if tags.len() == 0 {
        assert(ext =~= seq![(key, value)]);
        assert(ext[0] == (key, value));
        assert(ext.drop_first() =~= Seq::<(Seq<char>, Seq<char>)>::empty());
        assert forall|k: Seq<char>| k != key implies #[trigger] tag_value(ext, k) == tag_value(
            tags,
            k,
        ) by {
            assert(tag_value(ext, k) == tag_value(ext.drop_first(), k));
            assert(tag_value(ext.drop_first(), k) is None);
        }
    } else {
        assert(ext[0] == tags[0]);
        assert(ext.drop_first() =~= tags.drop_first() + seq![(key, value)]);
        lemma_tag_value_append(tags.drop_first(), key, value);
        assert(tags[0].0 != key);
        assert forall|k: Seq<char>| k != key implies #[trigger] tag_value(ext, k) == tag_value(
            tags,
            k,
        ) by {
            if ext[0].0 != k {
                assert(tag_value(ext, k) == tag_value(ext.drop_first(), k));
                assert(tag_value(tags, k) == tag_value(tags.drop_first(), k));
            }
        }
    }
}

} // verus!
