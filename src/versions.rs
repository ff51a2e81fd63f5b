//! The version cache: what was last observed of each remote object.
use vstd::prelude::*;
use vstd::slice::slice_subrange;
use crate::chars::{chars_of, string_of};
use crate::codec::{field, field_from, lemma_field_read, lemma_split, push_field, read_field};

verus! {

/// What was recorded of one remote object when it was last reconciled.
pub struct Version {
    /// Local filesystem path of the object.
    pub path: String,
    /// Opaque stamp that the remote store changes whenever the object changes.
    pub version: String,
    /// Content hash; present only for files.
    pub content_hash: Option<String>,
    /// Remote id of the containing folder.
    pub parent_id: String,
    pub is_folder: bool,
}

pub struct VersionView {
    pub path: Seq<char>,
    pub version: Seq<char>,
    pub content_hash: Option<Seq<char>>,
    pub parent_id: Seq<char>,
    pub is_folder: bool,
}

pub open spec fn opt_view(o: Option<String>) -> Option<Seq<char>> {
    match o {
        Some(s) => Some(s@),
        None => None,
    }
}

impl View for Version {
    type V = VersionView;

    open spec fn view(&self) -> VersionView {
        VersionView {
            path: self.path@,
            version: self.version@,
            content_hash: opt_view(self.content_hash),
            parent_id: self.parent_id@,
            is_folder: self.is_folder,
        }
    }
}

pub fn clone_opt_string(o: &Option<String>) -> (r: Option<String>)
    ensures
        opt_view(r) == opt_view(*o),
{
    match o {
        Some(s) => Some(s.clone()),
        None => None,
    }
}

pub fn opt_string_eq(a: &Option<String>, b: &Option<String>) -> (r: bool)
    ensures
        r == (opt_view(*a) == opt_view(*b)),
{
    match (a, b) {
        (Some(x), Some(y)) => *x == *y,
        (None, None) => true,
        _ => false,
    }
}

impl Version {
    pub fn duplicate(&self) -> (r: Version)
        ensures
            r@ == self@,
    {
        Version {
            path: self.path.clone(),
            version: self.version.clone(),
            content_hash: clone_opt_string(&self.content_hash),
            parent_id: self.parent_id.clone(),
            is_folder: self.is_folder,
        }
    }
}

/// The map that a sequence of entries describes: a later entry for an id
/// replaces an earlier one.
pub open spec fn map_of(s: Seq<(Seq<char>, VersionView)>) -> Map<Seq<char>, VersionView>
    decreases s.len(),
{
    if s.len() == 0 {
        Map::empty()
    } else {
        map_of(s.drop_last()).insert(s.last().0, s.last().1)
    }
}

/// No id occurs twice.
pub open spec fn unique_ids(s: Seq<(Seq<char>, VersionView)>) -> bool {
    forall|i: int, j: int| 0 <= i < j < s.len() ==> s[i].0 != s[j].0
}

pub open spec fn entry_view(e: (String, Version)) -> (Seq<char>, VersionView) {
    (e.0@, e.1@)
}

proof fn lemma_map_of_keys(s: Seq<(Seq<char>, VersionView)>)
    requires
        unique_ids(s),
    ensures
        forall|k: Seq<char>| #[trigger]
            map_of(s).contains_key(k) <==> exists|i: int| 0 <= i < s.len() && s[i].0 == k,
        forall|i: int| 0 <= i < s.len() ==> #[trigger] map_of(s)[s[i].0] == s[i].1,
    decreases s.len(),
{
    if s.len() > 0 {
        let p = s.drop_last();
        assert(unique_ids(p));
        lemma_map_of_keys(p);
        let last = s.last();
        assert(map_of(s) == map_of(p).insert(last.0, last.1));
        assert(s[s.len() - 1] == last);
        assert forall|k: Seq<char>| #[trigger]
            map_of(s).contains_key(k) <==> exists|i: int| 0 <= i < s.len() && s[i].0 == k by {
            if map_of(s).contains_key(k) {
                if k == last.0 {
                    assert(s[s.len() - 1].0 == k);
                } else {
                    assert(map_of(p).contains_key(k));
                    let i = choose|i: int| 0 <= i < p.len() && p[i].0 == k;
                    assert(s[i].0 == k);
                }
            }
            if exists|i: int| 0 <= i < s.len() && s[i].0 == k {
                let i = choose|i: int| 0 <= i < s.len() && s[i].0 == k;
                if i < p.len() {
                    assert(p[i].0 == k);
                }
            }
        }
        assert forall|i: int| 0 <= i < s.len() implies #[trigger] map_of(s)[s[i].0] == s[i].1 by {
            if i < p.len() {
                assert(p[i] == s[i]);
                assert(s[i].0 != last.0);
                assert(map_of(p)[p[i].0] == p[i].1);
            }
        }
    }
}

proof fn lemma_map_of_remove(s: Seq<(Seq<char>, VersionView)>, i: int)
    requires
        unique_ids(s),
        0 <= i < s.len(),
    ensures
        map_of(s.remove(i)) == map_of(s).remove(s[i].0),
        unique_ids(s.remove(i)),
    decreases s.len(),
{
    let p = s.drop_last();
    lemma_map_of_keys(p);
    if i == s.len() - 1 {
        assert(s.remove(i) =~= p);
        assert(!map_of(p).contains_key(s[i].0)) by {
            if map_of(p).contains_key(s[i].0) {
                let j = choose|j: int| 0 <= j < p.len() && p[j].0 == s[i].0;
                assert(s[j].0 == s[i].0);
            }
        }
        assert(map_of(s.remove(i)) =~= map_of(s).remove(s[i].0));
    } else {
        lemma_map_of_remove(p, i);
        assert(s.remove(i).drop_last() =~= p.remove(i));
        assert(s.remove(i).last() == s.last());
        assert(s.last().0 != s[i].0);
        assert(map_of(s.remove(i)) =~= map_of(s).remove(s[i].0));
    }
}

proof fn lemma_map_of_push(s: Seq<(Seq<char>, VersionView)>, e: (Seq<char>, VersionView))
    requires
        unique_ids(s),
        !map_of(s).contains_key(e.0),
    ensures
        map_of(s.push(e)) == map_of(s).insert(e.0, e.1),
        unique_ids(s.push(e)),
{
    lemma_map_of_keys(s);
    assert(s.push(e).drop_last() =~= s);
    assert forall|i: int, j: int| 0 <= i < j < s.push(e).len() implies s.push(e)[i].0 != s.push(
        e,
    )[j].0 by {
        if j == s.len() {
            assert(s[i].0 == s.push(e)[i].0);
        }
    }
}

/// The cache: a map from remote object id to its `Version`, held as a list of
/// entries in which no id occurs twice.
pub struct VersionMap {
    entries: Vec<(String, Version)>,
}

impl View for VersionMap {
    type V = Map<Seq<char>, VersionView>;

    closed spec fn view(&self) -> Map<Seq<char>, VersionView> {
        map_of(self.entry_seq())
    }
}

impl VersionMap {
    /// The entries, in the order in which they are held and written out.
    pub closed spec fn entry_seq(&self) -> Seq<(Seq<char>, VersionView)> {
        self.entries@.map_values(|e: (String, Version)| entry_view(e))
    }

    pub closed spec fn wf(&self) -> bool {
        unique_ids(self.entry_seq())
    }

    pub fn new() -> (r: VersionMap)
        ensures
            r.wf(),
            r@ == Map::<Seq<char>, VersionView>::empty(),
            r.entry_seq().len() == 0,
    {
        let r = VersionMap { entries: Vec::new() };
        assert(r.entry_seq() =~= Seq::<(Seq<char>, VersionView)>::empty());
        r
    }

    pub fn len(&self) -> (r: usize)
        requires
            self.wf(),
        ensures
            r == self@.len(),
    {
        proof {
            lemma_map_of_finite(self.entry_seq());
        }
        self.entries.len()
    }

    fn index_of(&self, id: &String) -> (r: Option<usize>)
        requires
            self.wf(),
        ensures
            match r {
                Some(i) => i < self.entry_seq().len() && self.entry_seq()[i as int].0 == id@,
                None => !self@.contains_key(id@),
            },
    {
        proof {
            lemma_map_of_keys(self.entry_seq());
        }
        let mut i: usize = 0;
        while i < self.entries.len()
            invariant
                i <= self.entries.len(),
                self.entry_seq().len() == self.entries.len(),
                forall|j: int| 0 <= j < i ==> self.entry_seq()[j].0 != id@,
            decreases self.entries.len() - i,
        {
            assert(self.entry_seq()[i as int] == entry_view(self.entries@[i as int]));
            if self.entries[i].0 == *id {
                return Some(i);
            }
            i = i + 1;
        }
        None
    }

    /// The record for `id`, if there is one.
    pub fn get(&self, id: &String) -> (r: Option<&Version>)
        requires
            self.wf(),
        ensures
            r is Some <==> self@.contains_key(id@),
            r is Some ==> r->0@ == self@[id@],
    {
        proof {
            lemma_map_of_keys(self.entry_seq());
        }
        match self.index_of(id) {
            Some(i) => Some(&self.entries[i].1),
            None => None,
        }
    }

    /// Removes the record for `id`; nothing changes where there is none.
    pub fn remove(&mut self, id: &String)
        requires
            old(self).wf(),
        ensures
            final(self).wf(),
            final(self)@ == old(self)@.remove(id@),
    {
        match self.index_of(id) {
            Some(i) => {
                let ghost s = self.entry_seq();
                self.entries.remove(i);
                proof {
                    lemma_map_of_remove(s, i as int);
                    assert(self.entry_seq() =~= s.remove(i as int));
                }
            },
            None => {
                assert(self@ =~= old(self)@.remove(id@));
            },
        }
    }

    /// Records `v` for `id`, replacing what was recorded before: the old
    /// entry is removed and the new one appended.
    pub fn insert(&mut self, id: String, v: Version)
        requires
            old(self).wf(),
        ensures
            final(self).wf(),
            final(self)@ == old(self)@.insert(id@, v@),
    {
        self.remove(&id);
        let ghost s = self.entry_seq();
        let ghost e = (id@, v@);
        self.entries.push((id, v));
        proof {
            assert(self.entry_seq() =~= s.push(e));
            lemma_map_of_push(s, e);
            assert(self@ =~= old(self)@.insert(e.0, e.1));
        }
    }
}

proof fn lemma_map_of_finite(s: Seq<(Seq<char>, VersionView)>)
    requires
        unique_ids(s),
    ensures
        map_of(s).dom().finite(),
        map_of(s).len() == s.len(),
    decreases s.len(),
{
    if s.len() > 0 {
        let p = s.drop_last();
        assert(unique_ids(p));
        lemma_map_of_finite(p);
        lemma_map_of_keys(p);
        assert(!map_of(p).contains_key(s.last().0)) by {
            if map_of(p).contains_key(s.last().0) {
                let j = choose|j: int| 0 <= j < p.len() && p[j].0 == s.last().0;
                assert(s[j].0 == s.last().0);
            }
        }
    }
}

/// The version document could not be read.
#[derive(Debug, PartialEq, Eq, Structural)]
pub enum StorageError {
    /// The text is not a sequence of well-formed records.
    Malformed,
}

/// The hash field's text: empty for none, `=` before the hash otherwise.
pub open spec fn hash_text(h: Option<Seq<char>>) -> Seq<char> {
    match h {
        Some(x) => seq!['='] + x,
        None => Seq::empty(),
    }
}

pub open spec fn hash_of_text(t: Seq<char>) -> Option<Option<Seq<char>>> {
    if t.len() == 0 {
        Some(None)
    } else if t[0] == '=' {
        Some(Some(t.drop_first()))
    } else {
        None
    }
}

pub open spec fn flag_text(is_folder: bool) -> Seq<char> {
    if is_folder {
        seq!['d']
    } else {
        seq!['f']
    }
}

pub open spec fn flag_of_text(t: Seq<char>) -> Option<bool> {
    if t == seq!['d'] {
        Some(true)
    } else if t == seq!['f'] {
        Some(false)
    } else {
        None
    }
}

/// One entry as written: six fields (id, stamp, hash, parent id, path, kind),
/// then a newline.
pub open spec fn record_text(e: (Seq<char>, VersionView)) -> Seq<char> {
    field(e.0) + (field(e.1.version) + (field(hash_text(e.1.content_hash)) + (field(
        e.1.parent_id,
    ) + (field(e.1.path) + (field(flag_text(e.1.is_folder)) + seq!['\n'])))))
}

/// The document that holds `s`: its records, in order.
pub open spec fn document(s: Seq<(Seq<char>, VersionView)>) -> Seq<char>
    decreases s.len(),
{
    if s.len() == 0 {
        Seq::empty()
    } else {
        document(s.drop_last()) + record_text(s.last())
    }
}

/// Reads the record that starts at `i`: the entry and the position after it.
pub open spec fn record_at(t: Seq<char>, i: int) -> Option<((Seq<char>, VersionView), int)> {
    match field_from(t, i, Seq::empty()) {
        None => None,
        Some((id, i1)) => match field_from(t, i1, Seq::empty()) {
            None => None,
            Some((version, i2)) => match field_from(t, i2, Seq::empty()) {
                None => None,
                Some((h, i3)) => match field_from(t, i3, Seq::empty()) {
                    None => None,
                    Some((parent_id, i4)) => match field_from(t, i4, Seq::empty()) {
                        None => None,
                        Some((path, i5)) => match field_from(t, i5, Seq::empty()) {
                            None => None,
                            Some((flag, i6)) => {
                                if 0 <= i6 < t.len() && t[i6] == '\n' && hash_of_text(h) is Some
                                    && flag_of_text(flag) is Some {
                                    Some(
                                        (
                                            (
                                                id,
                                                VersionView {
                                                    path,
                                                    version,
                                                    content_hash: hash_of_text(h)->0,
                                                    parent_id,
                                                    is_folder: flag_of_text(flag)->0,
                                                },
                                            ),
                                            i6 + 1,
                                        ),
                                    )
                                } else {
                                    None
                                }
                            },
                        },
                    },
                },
            },
        },
    }
}

/// Reads records from `i` to the end, after those already read into `acc`.
pub open spec fn parse_from(t: Seq<char>, i: int, acc: Seq<(Seq<char>, VersionView)>) -> Option<
    Seq<(Seq<char>, VersionView)>,
>
    decreases t.len() - i,
{
    if i == t.len() {
        Some(acc)
    } else if i < 0 || i > t.len() {
        None
    } else {
        match record_at(t, i) {
            Some((e, j)) => if j > i {
                parse_from(t, j, acc.push(e))
            } else {
                None
            },
            None => None,
        }
    }
}

/// The entries that a document holds, or `None` where it is malformed.
pub open spec fn parse_document(t: Seq<char>) -> Option<Seq<(Seq<char>, VersionView)>> {
    parse_from(t, 0, Seq::empty())
}

proof fn lemma_record_read(t: Seq<char>, i: int, e: (Seq<char>, VersionView))
    requires
        0 <= i,
        i + record_text(e).len() <= t.len(),
        t.subrange(i, i + record_text(e).len()) == record_text(e),
    ensures
        record_at(t, i) == Some((e, i + record_text(e).len())),
{
    let v = e.1;
    let e0 = Seq::<char>::empty();
    let nl = seq!['\n'];
    let f6 = field(flag_text(v.is_folder));
    let f5 = field(v.path);
    let f4 = field(v.parent_id);
    let f3 = field(hash_text(v.content_hash));
    let f2 = field(v.version);
    let f1 = field(e.0);
    let r5 = f6 + nl;
    let r4 = f5 + r5;
    let r3 = f4 + r4;
    let r2 = f3 + r3;
    let r1 = f2 + r2;
    assert(record_text(e) == f1 + r1);
    lemma_split(t, i, f1, r1);
    lemma_field_read(t, i, e.0, e0);
    let i1 = i + f1.len();
    lemma_split(t, i1, f2, r2);
    lemma_field_read(t, i1, v.version, e0);
    let i2 = i1 + f2.len();
    lemma_split(t, i2, f3, r3);
    lemma_field_read(t, i2, hash_text(v.content_hash), e0);
    let i3 = i2 + f3.len();
    lemma_split(t, i3, f4, r4);
    lemma_field_read(t, i3, v.parent_id, e0);
    let i4 = i3 + f4.len();
    lemma_split(t, i4, f5, r5);
    lemma_field_read(t, i4, v.path, e0);
    let i5 = i4 + f5.len();
    lemma_split(t, i5, f6, nl);
    lemma_field_read(t, i5, flag_text(v.is_folder), e0);
    let i6 = i5 + f6.len();
    assert(t[i6] == t.subrange(i6, i6 + 1)[0]);
    assert(e0 + e.0 =~= e.0);
    assert(e0 + v.version =~= v.version);
    assert(e0 + v.parent_id =~= v.parent_id);
    assert(e0 + v.path =~= v.path);
    let ht = hash_text(v.content_hash);
    assert(e0 + ht =~= ht);
    match v.content_hash {
        Some(x) => {
            assert(ht[0] == '=');
            assert(ht.drop_first() =~= x);
        },
        None => {},
    }
    let ft = flag_text(v.is_folder);
    assert(e0 + ft =~= ft);
}

proof fn lemma_document_concat(a: Seq<(Seq<char>, VersionView)>, b: Seq<(Seq<char>, VersionView)>)
    ensures
        document(a + b) == document(a) + document(b),
    decreases b.len(),
{
    if b.len() == 0 {
        assert(a + b =~= a);
        assert(document(a) + document(b) =~= document(a));
    } else {
        assert((a + b).drop_last() =~= a + b.drop_last());
        lemma_document_concat(a, b.drop_last());
        assert(document(a + b) =~= document(a) + document(b));
    }
}

proof fn lemma_parse(
    t: Seq<char>,
    i: int,
    s: Seq<(Seq<char>, VersionView)>,
    acc: Seq<(Seq<char>, VersionView)>,
)
    requires
        0 <= i <= t.len(),
        t.subrange(i, t.len() as int) == document(s),
    ensures
        parse_from(t, i, acc) == Some(acc + s),
    decreases s.len(),
{
    if s.len() == 0 {
        assert(acc + s =~= acc);
    } else {
        let one = seq![s[0]];
        let rest = s.drop_first();
        assert(s =~= one + rest);
        lemma_document_concat(one, rest);
        assert(one.drop_last() =~= Seq::<(Seq<char>, VersionView)>::empty());
        assert(one.last() == s[0]);
        assert(document(one) == document(one.drop_last()) + record_text(one.last()));
        assert(document(Seq::<(Seq<char>, VersionView)>::empty()) =~= Seq::<char>::empty());
        assert(document(one) =~= record_text(s[0]));
        assert(t.subrange(i, t.len() as int).len() == t.len() - i);
        let rt = record_text(s[0]);
        lemma_split(t, i, rt, document(rest));
        lemma_record_read(t, i, s[0]);
        lemma_parse(t, i + rt.len(), rest, acc.push(s[0]));
        assert(acc.push(s[0]) + rest =~= acc + s);
    }
}

/// Writing a map out and reading the document back gives the same entries,
/// and so the same map.
pub proof fn lemma_round_trip(m: &VersionMap)
    requires
        m.wf(),
    ensures
        parse_document(document(m.entry_seq())) == Some(m.entry_seq()),
        map_of(m.entry_seq()) == m@,
{
    let t = document(m.entry_seq());
    assert(t.subrange(0, t.len() as int) =~= t);
    lemma_parse(t, 0, m.entry_seq(), Seq::empty());
    assert(Seq::<(Seq<char>, VersionView)>::empty() + m.entry_seq() =~= m.entry_seq());
}

fn push_record(out: &mut Vec<char>, id: &String, v: &Version)
    ensures
        final(out)@ == old(out)@ + record_text((id@, v@)),
{
    let ghost o0 = out@;
    push_field(out, id.as_str());
    push_field(out, v.version.as_str());
    let ghost o2 = out@;
    assert(o2 == o0 + field(id@) + field(v@.version));
    match &v.content_hash {
        Some(h) => {
            let mut ht = String::from_str("=");
            ht.append(h.as_str());
            proof {
                reveal_strlit("=");
            }
            assert(ht@ =~= hash_text(v@.content_hash));
            push_field(out, ht.as_str());
        },
        None => {
            let ht = String::new();
            push_field(out, ht.as_str());
        },
    }
    assert(out@ == o2 + field(hash_text(v@.content_hash)));
    push_field(out, v.parent_id.as_str());
    push_field(out, v.path.as_str());
    let ghost o5 = out@;
    if v.is_folder {
        proof {
            reveal_strlit("d");
        }
        assert("d"@ =~= flag_text(true));
        push_field(out, "d");
    } else {
        proof {
            reveal_strlit("f");
        }
        assert("f"@ =~= flag_text(false));
        push_field(out, "f");
    }
    assert(out@ == o5 + field(flag_text(v.is_folder)));
    out.push('\n');
    assert(out@ =~= old(out)@ + record_text((id@, v@)));
}

fn read_record(t: &Vec<char>, i: usize) -> (r: Option<(String, Version, usize)>)
    ensures
        match r {
            Some((id, v, j)) => record_at(t@, i as int) == Some(((id@, v@), j as int)),
            None => record_at(t@, i as int) is None,
        },
{
    let (id, i1) = read_field(t, i)?;
    let (version, i2) = read_field(t, i1)?;
    let (h, i3) = read_field(t, i2)?;
    let (parent_id, i4) = read_field(t, i3)?;
    let (path, i5) = read_field(t, i4)?;
    let (flag, i6) = read_field(t, i5)?;
    if !(i6 < t.len() && t[i6] == '\n') {
        return None;
    }
    let content_hash = if h.len() == 0 {
        None
    } else if h[0] == '=' {
        let rest = slice_subrange(h.as_slice(), 1, h.len());
        assert(rest@ =~= h@.drop_first());
        Some(string_of(rest))
    } else {
        return None;
    };
    let is_folder = if flag.len() == 1 && flag[0] == 'd' {
        assert(flag@ =~= seq!['d']);
        true
    } else if flag.len() == 1 && flag[0] == 'f' {
        assert(flag@ =~= seq!['f']);
        false
    } else {
        assert(flag@ != seq!['d'] && flag@ != seq!['f']) by {
            if flag@ == seq!['d'] || flag@ == seq!['f'] {
                assert(flag@.len() == 1);
            }
        }
        return None;
    };
    let v = Version {
        path: string_of(path.as_slice()),
        version: string_of(version.as_slice()),
        content_hash,
        parent_id: string_of(parent_id.as_slice()),
        is_folder,
    };
    Some((string_of(id.as_slice()), v, i6 + 1))
}

impl VersionMap {
    /// The document that holds this map.
    pub fn encode(&self) -> (r: String)
        requires
            self.wf(),
        ensures
            r@ == document(self.entry_seq()),
    {
        let mut out: Vec<char> = Vec::new();
        let mut k: usize = 0;
        while k < self.entries.len()
            invariant
                k <= self.entries.len(),
                self.entry_seq().len() == self.entries.len(),
                out@ == document(self.entry_seq().subrange(0, k as int)),
            decreases self.entries.len() - k,
        {
            let ghost s = self.entry_seq();
            proof {
                assert(s.subrange(0, k + 1).drop_last() =~= s.subrange(0, k as int));
                assert(s.subrange(0, k + 1).last() == entry_view(self.entries@[k as int]));
            }
            push_record(&mut out, &self.entries[k].0, &self.entries[k].1);
            k = k + 1;
        }
        assert(self.entry_seq().subrange(0, k as int) =~= self.entry_seq());
        string_of(out.as_slice())
    }

    /// Reads a map from its document. Where an id occurs twice, the later
    /// record is the one kept.
    pub fn decode(text: &str) -> (r: Result<VersionMap, StorageError>)
        ensures
            match parse_document(text@) {
                Some(es) => r is Ok && r->Ok_0.wf() && r->Ok_0@ == map_of(es),
                None => r == Err::<VersionMap, StorageError>(StorageError::Malformed),
            },
    {
        let t = chars_of(text);
        let mut m = VersionMap::new();
        let mut i: usize = 0;
        let ghost mut acc: Seq<(Seq<char>, VersionView)> = Seq::empty();
        while i < t.len()
            invariant
                t@ == text@,
                i <= t.len(),
                m.wf(),
                m@ == map_of(acc),
                parse_document(t@) == parse_from(t@, i as int, acc),
            decreases t.len() - i,
        {
            match read_record(&t, i) {
                Some((id, v, j)) => {
                    if j <= i {
                        return Err(StorageError::Malformed);
                    }
                    proof {
                        let e = (id@, v@);
                        assert(acc.push(e).drop_last() =~= acc);
                        acc = acc.push(e);
                    }
                    m.insert(id, v);
                    if j > t.len() {
                        return Err(StorageError::Malformed);
                    }
                    i = j;
                },
                None => {
                    return Err(StorageError::Malformed);
                },
            }
        }
        Ok(m)
    }
}

} // verus!
