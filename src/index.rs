//! Resolving a document's category and tag references against an index of
//! known categories or tags.
use crate::ingot::{
    Ingot, KeyListModel, RKeyList, RKeyModel, RKeyRaw, is_quote, rkey_of, split_commas, text_keys,
    unquote,
};
use crate::text::{
    digits_value, is_digit, is_white, parsed_usize, push_char, trim, trim_end, trim_start,
    unsigned_digits,
};
use std::collections::BTreeMap;
use vstd::prelude::*;

verus! {

/// A tag of the site.
#[derive(Debug)]
pub struct Tag {
    pub id: usize,
    pub name: String,
    pub path_name: String,
    pub description: String,
    pub opt_attr: Option<BTreeMap<String, String>>,
}

impl Tag {
    pub fn new(id: usize, path_name: String, name: String, description: String) -> (r: Tag)
        ensures
            r.id == id,
            r.path_name == path_name,
            r.name == name,
            r.description == description,
            r.opt_attr is None,
    {
        Tag { id, path_name, name, description, opt_attr: None }
    }

    /// The tag as an entry of a resolution index.
    pub fn index_entry(&self) -> (r: IndexEntry)
        ensures
            r.id == self.id,
            r.name@ == self.name@,
            r.path_name@ == self.path_name@,
    {
        IndexEntry { id: self.id, name: self.name.clone(), path_name: self.path_name.clone() }
    }
}

/// One known category or tag: its id, its name and its url path name.
#[derive(Debug, Clone, PartialEq, Eq)]
pub struct IndexEntry {
    pub id: usize,
    pub name: String,
    pub path_name: String,
}

/// Model of an index entry.
pub struct EntryModel {
    pub id: usize,
    pub name: Seq<char>,
    pub path_name: Seq<char>,
}

/// Model of an index.
pub open spec fn index_model(v: Seq<IndexEntry>) -> Seq<EntryModel> {
    v.map_values(|e: IndexEntry| EntryModel { id: e.id, name: e.name@, path_name: e.path_name@ })
}

/// Whether some entry of `index` has id `n`.
pub open spec fn has_id(index: Seq<EntryModel>, n: usize) -> bool {
    exists|i: int| 0 <= i < index.len() && #[trigger] index[i].id == n
}

/// The id of the first entry of `index` whose name or path name is `s`.
pub open spec fn id_of_name(index: Seq<EntryModel>, s: Seq<char>) -> Option<usize>
    decreases index.len(),
{
    if index.len() == 0 {
        None
    } else if index[0].name == s || index[0].path_name == s {
        Some(index[0].id)
    } else {
        id_of_name(index.drop_first(), s)
    }
}

/// The id that a reference resolves to: an id that the index knows, or the
/// id of the first entry with the name.
pub open spec fn resolve_key(k: RKeyModel, index: Seq<EntryModel>) -> Option<usize> {
    match k {
        RKeyModel::Id(n) => if has_id(index, n) {
            Some(n)
        } else {
            None
        },
        RKeyModel::Name(s) => id_of_name(index, s),
    }
}

/// The ids that references resolve to, in order; unresolved ones drop out.
pub open spec fn resolve_keys(keys: Seq<RKeyModel>, index: Seq<EntryModel>) -> Seq<usize>
    decreases keys.len(),
{
    if keys.len() == 0 {
        seq![]
    } else {
        let rest = resolve_keys(keys.drop_last(), index);
        match resolve_key(keys.last(), index) {
            Some(n) => rest.push(n),
            None => rest,
        }
    }
}

/// A reference list resolved against `index`; a resolved one stays as it is.
pub open spec fn collated(l: KeyListModel, index: Seq<EntryModel>) -> KeyListModel {
    match l {
        KeyListModel::Raw(keys) => KeyListModel::CollatedId(resolve_keys(keys, index)),
        KeyListModel::CollatedId(ids) => KeyListModel::CollatedId(ids),
    }
}

/// A resolved list written back as raw references: each id as an id
/// reference.
pub open spec fn serialized(l: KeyListModel) -> KeyListModel {
    match l {
        KeyListModel::Raw(keys) => KeyListModel::Raw(keys),
        KeyListModel::CollatedId(ids) => KeyListModel::Raw(
            ids.map_values(|n: usize| RKeyModel::Id(n)),
        ),
    }
}

proof fn lemma_id_of_name_known(index: Seq<EntryModel>, s: Seq<char>)
    ensures
        id_of_name(index, s) matches Some(n) ==> has_id(index, n),
    decreases index.len(),
{
    if index.len() > 0 && !(index[0].name == s || index[0].path_name == s) {
        lemma_id_of_name_known(index.drop_first(), s);
        if let Some(n) = id_of_name(index, s) {
            let i = choose|i: int| 0 <= i < index.drop_first().len() && #[trigger] index.drop_first()[i].id == n;
            assert(index[i + 1].id == n);
        }
    } else if index.len() > 0 {
        assert(index[0].id == index[0].id);
    }
}

proof fn lemma_resolved_ids_known(keys: Seq<RKeyModel>, index: Seq<EntryModel>)
    ensures
        forall|j: int|
            0 <= j < resolve_keys(keys, index).len() ==> has_id(
                index,
                #[trigger] resolve_keys(keys, index)[j],
            ),
    decreases keys.len(),
{
    if keys.len() > 0 {
        let rest = resolve_keys(keys.drop_last(), index);
        lemma_resolved_ids_known(keys.drop_last(), index);
        if let RKeyModel::Name(s) = keys.last() {
            lemma_id_of_name_known(index, s);
        }
        let r = resolve_keys(keys, index);
        assert forall|j: int| 0 <= j < r.len() implies has_id(index, #[trigger] r[j]) by {
            if j < rest.len() {
                assert(r[j] == rest[j]);
            }
        }
    }
}

proof fn lemma_known_ids_resolve(ids: Seq<usize>, index: Seq<EntryModel>)
    requires
        forall|j: int| 0 <= j < ids.len() ==> has_id(index, #[trigger] ids[j]),
    ensures
        resolve_keys(ids.map_values(|n: usize| RKeyModel::Id(n)), index) == ids,
    decreases ids.len(),
{
    let keys = ids.map_values(|n: usize| RKeyModel::Id(n));
    if ids.len() == 0 {
        assert(keys.len() == 0);
    } else {
        lemma_known_ids_resolve(ids.drop_last(), index);
        assert(keys.drop_last() =~= ids.drop_last().map_values(|n: usize| RKeyModel::Id(n)));
        assert(has_id(index, ids[ids.len() - 1]));
        assert(resolve_keys(keys, index) =~= ids);
    }
}

/// Resolution is idempotent: a raw list resolved against an index, written
/// back as raw references and resolved again against the same index, gives
/// the same ids.
pub proof fn lemma_collate_idempotent(l: KeyListModel, index: Seq<EntryModel>)
    requires
        l is Raw,
    ensures
        collated(serialized(collated(l, index)), index) == collated(l, index),
{
    let keys = l->Raw_0;
    lemma_resolved_ids_known(keys, index);
    lemma_known_ids_resolve(resolve_keys(keys, index), index);
}

/// The id that `k` resolves to in `index`.
fn resolve_one(k: &RKeyRaw, index: &Vec<IndexEntry>) -> (r: Option<usize>)
    ensures
        r == resolve_key(k@, index_model(index@)),
{
    let ghost im = index_model(index@);
    match k {
        RKeyRaw::Usize(n) => {
            let mut i: usize = 0;
            while i < index.len()
                invariant
                    i <= index.len(),
                    im == index_model(index@),
                    k@ == RKeyModel::Id(*n),
                    forall|j: int| 0 <= j < i ==> im[j].id != *n,
                decreases index.len() - i,
            {
                if index[i].id == *n {
                    assert(im[i as int].id == *n);
                    assert(has_id(im, *n));
                    return Some(*n);
                }
                i = i + 1;
            }
            None
        },
        RKeyRaw::String(s) => {
            let mut i: usize = 0;
            assert(im.subrange(0, im.len() as int) =~= im);
            while i < index.len()
                invariant
                    i <= index.len(),
                    im == index_model(index@),
                    k@ == RKeyModel::Name(s@),
                    id_of_name(im, s@) == id_of_name(im.subrange(i as int, im.len() as int), s@),
                decreases index.len() - i,
            {
                proof {
                    let sub = im.subrange(i as int, im.len() as int);
                    assert(sub.drop_first() =~= im.subrange(i + 1, im.len() as int));
                }
                if index[i].name.eq(s) || index[i].path_name.eq(s) {
                    proof {
                        let sub = im.subrange(i as int, im.len() as int);
                        assert(sub[0] == im[i as int]);
                        assert(im[i as int].name == index@[i as int].name@);
                    }
                    return Some(index[i].id);
                }
                i = i + 1;
            }
            None
        },
    }
}

impl RKeyList {
    /// The list resolved against `index`: each reference becomes the id it
    /// resolves to, and unresolved ones drop out; a resolved list stays as it
    /// is.
    pub fn collate(&self, index: &Vec<IndexEntry>) -> (r: RKeyList)
        ensures
            r@ == collated(self@, index_model(index@)),
    {
        match self {
            RKeyList::Raw(keys) => {
                let ghost km = keys@.map_values(|k: RKeyRaw| k@);
                let mut ids: Vec<usize> = Vec::new();
                let mut i: usize = 0;
                while i < keys.len()
                    invariant
                        i <= keys.len(),
                        km == keys@.map_values(|k: RKeyRaw| k@),
                        ids@ == resolve_keys(km.subrange(0, i as int), index_model(index@)),
                    decreases keys.len() - i,
                {
                    assert(km.subrange(0, i + 1).drop_last() =~= km.subrange(0, i as int));
                    match resolve_one(&keys[i], index) {
                        Some(n) => ids.push(n),
                        None => {},
                    }
                    i = i + 1;
                }
                assert(km.subrange(0, keys.len() as int) =~= km);
                RKeyList::CollatedId(ids)
            },
            RKeyList::CollatedId(ids) => {
                let mut out: Vec<usize> = Vec::new();
                let mut i: usize = 0;
                while i < ids.len()
                    invariant
                        i <= ids.len(),
                        out@ == ids@.subrange(0, i as int),
                    decreases ids.len() - i,
                {
                    out.push(ids[i]);
                    assert(out@ =~= ids@.subrange(0, i + 1));
                    i = i + 1;
                }
                assert(out@ =~= ids@);
                RKeyList::CollatedId(out)
            },
        }
    }

    /// The list written as raw references: a resolved list gives one id
    /// reference per id.
    pub fn to_raw(&self) -> (r: RKeyList)
        ensures
            r@ == serialized(self@),
    {
        match self {
            RKeyList::Raw(keys) => {
                let mut out: Vec<RKeyRaw> = Vec::new();
                let mut i: usize = 0;
                while i < keys.len()
                    invariant
                        i <= keys.len(),
                        out@.map_values(|k: RKeyRaw| k@) =~= keys@.subrange(0, i as int).map_values(
                            |k: RKeyRaw| k@,
                        ),
                    decreases keys.len() - i,
                {
                    let k = match &keys[i] {
                        RKeyRaw::String(s) => RKeyRaw::String(s.clone()),
                        RKeyRaw::Usize(n) => RKeyRaw::Usize(*n),
                    };
                    let ghost o0 = out@;
                    out.push(k);
                    assert(keys@.subrange(0, i + 1) =~= keys@.subrange(0, i as int).push(
                        keys@[i as int],
                    ));
                    assert(out@.map_values(|k: RKeyRaw| k@) =~= o0.map_values(|k: RKeyRaw| k@).push(
                        keys@[i as int]@,
                    ));
                    i = i + 1;
                }
                assert(keys@.subrange(0, keys@.len() as int) =~= keys@);
                RKeyList::Raw(out)
            },
            RKeyList::CollatedId(ids) => {
                let mut out: Vec<RKeyRaw> = Vec::new();
                let mut i: usize = 0;
                while i < ids.len()
                    invariant
                        i <= ids.len(),
                        out@.map_values(|k: RKeyRaw| k@) =~= ids@.subrange(0, i as int).map_values(
                            |n: usize| RKeyModel::Id(n),
                        ),
                    decreases ids.len() - i,
                {
                    let ghost o0 = out@;
                    out.push(RKeyRaw::Usize(ids[i]));
                    assert(ids@.subrange(0, i + 1) =~= ids@.subrange(0, i as int).push(
                        ids@[i as int],
                    ));
                    assert(out@.map_values(|k: RKeyRaw| k@) =~= o0.map_values(|k: RKeyRaw| k@).push(
                        RKeyModel::Id(ids@[i as int]),
                    ));
                    i = i + 1;
                }
                assert(ids@.subrange(0, ids@.len() as int) =~= ids@);
                RKeyList::Raw(out)
            },
        }
    }
}

impl Ingot {
    /// Resolves the document's categories and tags against the given
    /// indices.
    pub fn collate_ids(&mut self, categories: &Vec<IndexEntry>, tags: &Vec<IndexEntry>)
        ensures
            final(self)@.categories == collated(old(self)@.categories, index_model(categories@)),
            final(self)@.tags == collated(old(self)@.tags, index_model(tags@)),
            final(self)@ == (crate::ingot::IngotModel {
                categories: final(self)@.categories,
                tags: final(self)@.tags,
                ..old(self)@
            }),
    {
        self.categories = self.categories.collate(categories);
        self.tags = self.tags.collate(tags);
    }
}

/// Tags by id; a later tag replaces an earlier one with the same id.
pub open spec fn tag_map(tags: Seq<Tag>) -> Map<usize, Tag>
    decreases tags.len(),
{
    if tags.len() == 0 {
        Map::empty()
    } else {
        tag_map(tags.drop_last()).insert(tags.last().id, tags.last())
    }
}

/// The tags by id; where two tags share an id, the later one is kept.
pub fn get_index_map_from_tags(tags: &[Tag]) -> (r: BTreeMap<usize, &Tag>)
    ensures
        r@.dom() == tag_map(tags@).dom(),
        forall|k: usize| #[trigger] r@.contains_key(k) ==> *r@[k] == tag_map(tags@)[k],
{
    broadcast use vstd::laws_cmp::group_laws_cmp;
    let mut r: BTreeMap<usize, &Tag> = BTreeMap::new();
    let mut k: usize = 0;
    assert(tags@.subrange(0, 0) =~= Seq::<Tag>::empty());
    while k < tags.len()
        invariant
            k <= tags.len(),
            r@.dom() == tag_map(tags@.subrange(0, k as int)).dom(),
            forall|j: usize| #[trigger]
                r@.contains_key(j) ==> *r@[j] == tag_map(tags@.subrange(0, k as int))[j],
        decreases tags.len() - k,
    {
        let t = &tags[k];
        r.insert(t.id, t);
        proof {
            assert(tags@.subrange(0, k + 1).drop_last() =~= tags@.subrange(0, k as int));
            let m = tag_map(tags@.subrange(0, k + 1));
            assert(r@.dom() =~= m.dom());
            assert forall|j: usize| #[trigger] r@.contains_key(j) implies *r@[j] == m[j] by {}
        }
        k = k + 1;
    }
    assert(tags@.subrange(0, tags@.len() as int) =~= tags@);
    r
}

/// The decimal digit character for `d`, below ten.
pub open spec fn digit_char(d: nat) -> char {
    ((d + 48) as u8) as char
}

/// The decimal digits of `n`, most significant first.
pub open spec fn decimal(n: nat) -> Seq<char>
    decreases n,
{
    if n < 10 {
        seq![digit_char(n)]
    } else {
        decimal(n / 10).push(digit_char(n % 10))
    }
}

/// The text of one reference: a name as it is, an id in decimal.
pub open spec fn key_text(k: RKeyModel) -> Seq<char> {
    match k {
        RKeyModel::Name(s) => s,
        RKeyModel::Id(n) => decimal(n as nat),
    }
}

/// The texts of references, separated by `, `.
pub open spec fn keys_text(keys: Seq<RKeyModel>) -> Seq<char>
    decreases keys.len(),
{
    if keys.len() == 0 {
        seq![]
    } else if keys.len() == 1 {
        key_text(keys[0])
    } else {
        keys_text(keys.drop_last()) + seq![',', ' '] + key_text(keys.last())
    }
}

/// The id references that a resolved list stands for.
pub open spec fn id_keys(ids: Seq<usize>) -> Seq<RKeyModel> {
    ids.map_values(|n: usize| RKeyModel::Id(n))
}

/// The text of a reference list: its references, or its ids, separated by
/// `, `.
pub open spec fn list_text(l: KeyListModel) -> Seq<char> {
    match l {
        KeyListModel::Raw(keys) => keys_text(keys),
        KeyListModel::CollatedId(ids) => keys_text(id_keys(ids)),
    }
}

proof fn lemma_digit_char(d: nat)
    requires
        d < 10,
    ensures
        is_digit(digit_char(d)),
        (digit_char(d) as u32) - ('0' as u32) == d,
        !is_white(digit_char(d)),
        !is_quote(digit_char(d)),
        digit_char(d) != ',',
        digit_char(d) != '+',
{
}

proof fn lemma_decimal(n: nat)
    ensures
        decimal(n).len() > 0,
        forall|i: int| 0 <= i < decimal(n).len() ==> is_digit(#[trigger] decimal(n)[i]) && !is_white(
            decimal(n)[i],
        ) && !is_quote(decimal(n)[i]) && decimal(n)[i] != ',' && decimal(n)[i] != '+',
        digits_value(decimal(n)) == n,
    decreases n,
{
    if n < 10 {
        lemma_digit_char(n);
        assert(decimal(n).drop_last() =~= Seq::<char>::empty());
        assert(digits_value(Seq::<char>::empty()) == 0);
    } else {
        lemma_decimal(n / 10);
        lemma_digit_char(n % 10);
        let d = decimal(n);
        assert(d.drop_last() =~= decimal(n / 10));
        assert(d.last() == digit_char(n % 10));
        assert(n == (n / 10) * 10 + n % 10);
        assert forall|i: int| 0 <= i < d.len() implies is_digit(#[trigger] d[i]) && !is_white(d[i])
            && !is_quote(d[i]) && d[i] != ',' && d[i] != '+' by {
            if i < d.len() - 1 {
                assert(d[i] == decimal(n / 10)[i]);
            }
        }
    }
}

/// Leading whitespace goes.
proof fn lemma_trim_start_white(w: Seq<char>, x: Seq<char>)
    requires
        forall|i: int| 0 <= i < w.len() ==> is_white(#[trigger] w[i]),
        x.len() > 0 && !is_white(x[0]),
    ensures
        trim_start(w + x) == x,
    decreases w.len(),
{
    if w.len() == 0 {
        assert(w + x =~= x);
    } else {
        assert((w + x).drop_first() =~= w.drop_first() + x);
        lemma_trim_start_white(w.drop_first(), x);
    }
}

/// Trailing whitespace goes.
proof fn lemma_trim_end_white(x: Seq<char>, w: Seq<char>)
    requires
        forall|i: int| 0 <= i < w.len() ==> is_white(#[trigger] w[i]),
        x.len() > 0 && !is_white(x.last()),
    ensures
        trim_end(x + w) == x,
    decreases w.len(),
{
    if w.len() == 0 {
        assert(x + w =~= x);
    } else {
        assert((x + w).drop_last() =~= x + w.drop_last());
        lemma_trim_end_white(x, w.drop_last());
    }
}

/// A number written in decimal, between optional quotes and whitespace,
/// reads back as an id reference to that number.
pub proof fn lemma_number_key(w1: Seq<char>, q: Seq<char>, n: usize, w2: Seq<char>)
    requires
        forall|i: int| 0 <= i < w1.len() ==> is_white(#[trigger] w1[i]),
        forall|i: int| 0 <= i < w2.len() ==> is_white(#[trigger] w2[i]),
        q == Seq::<char>::empty() || q == seq!['"'] || q == seq!['\''],
    ensures
        rkey_of(w1 + q + decimal(n as nat) + q + w2) == RKeyModel::Id(n),
{
    let d = decimal(n as nat);
    lemma_decimal(n as nat);
    let m = q + d + q;
    assert(m.len() > 0);
    assert(!is_white(m[0])) by {
        if q.len() == 0 {
            assert(m[0] == d[0]);
        }
    }
    assert(!is_white(m.last())) by {
        if q.len() == 0 {
            assert(m.last() == d[d.len() - 1]);
        }
    }
    assert(w1 + q + d + q + w2 =~= w1 + (m + w2));
    lemma_trim_start_white(w1, m + w2);
    lemma_trim_end_white(m, w2);
    assert(trim(w1 + q + d + q + w2) == m);
    if q.len() == 0 {
        assert(m =~= d);
        assert(!is_quote(d[0]));
        assert(!is_quote(d.last()));
    } else {
        assert(m.drop_first() =~= d + q);
        assert((d + q).drop_last() =~= d);
    }
    assert(unquote(m) == d);
    assert(unsigned_digits(d) == d);
    assert(parsed_usize(d) == Some(n));
}

/// Text without commas extends the last piece.
proof fn lemma_split_commas_append(x: Seq<char>, b: Seq<char>)
    requires
        forall|i: int| 0 <= i < b.len() ==> #[trigger] b[i] != ',',
    ensures
        split_commas(x + b) == split_commas(x).update(
            split_commas(x).len() - 1,
            split_commas(x).last() + b,
        ),
        split_commas(x).len() >= 1,
    decreases b.len(),
{
    crate::ingot::lemma_split_commas_nonempty(x);
    if b.len() == 0 {
        assert(x + b =~= x);
        assert(split_commas(x).last() + b =~= split_commas(x).last());
        assert(split_commas(x).update(split_commas(x).len() - 1, split_commas(x).last())
            =~= split_commas(x));
    } else {
        let b0 = b.drop_last();
        lemma_split_commas_append(x, b0);
        assert((x + b).drop_last() =~= x + b0);
        assert((x + b).last() == b.last());
        let r = split_commas(x + b0);
        assert(b[b.len() - 1] != ',');
        assert(split_commas(x + b) == r.update(r.len() - 1, r.last().push(b.last())));
        assert(r.len() == split_commas(x).len());
        assert(r.last() == split_commas(x).last() + b0);
        assert(split_commas(x).last() + b0 + seq![b.last()] =~= split_commas(x).last() + b);
        assert(r.last().push(b.last()) =~= split_commas(x).last() + b);
        let sc = split_commas(x);
        assert(r == sc.update(sc.len() - 1, sc.last() + b0));
        assert(r.update(r.len() - 1, r.last().push(b.last())) =~= split_commas(x).update(
            split_commas(x).len() - 1,
            split_commas(x).last() + b,
        ));
    }
}

/// Id references written as text read back as the same references.
pub proof fn lemma_id_keys_text(ids: Seq<usize>)
    requires
        ids.len() > 0,
    ensures
        text_keys(keys_text(id_keys(ids))) == id_keys(ids),
    decreases ids.len(),
{
    let n = ids.last();
    let d = decimal(n as nat);
    lemma_decimal(n as nat);
    if ids.len() == 1 {
        lemma_split_commas_append(Seq::<char>::empty(), d);
        assert(Seq::<char>::empty() + d =~= d);
        assert(split_commas(Seq::<char>::empty()) =~= seq![Seq::<char>::empty()]);
        assert(split_commas(d) =~= seq![d]);
        lemma_number_key(Seq::<char>::empty(), Seq::<char>::empty(), n, Seq::<char>::empty());
        assert(Seq::<char>::empty() + Seq::<char>::empty() + d + Seq::<char>::empty()
            + Seq::<char>::empty() =~= d);
        assert(text_keys(d) =~= id_keys(ids));
    } else {
        let rest = ids.drop_last();
        lemma_id_keys_text(rest);
        assert(id_keys(ids).drop_last() =~= id_keys(rest));
        let a = keys_text(id_keys(rest));
        let b = seq![' '] + d;
        assert forall|i: int| 0 <= i < b.len() implies #[trigger] b[i] != ',' by {
            if i > 0 {
                assert(b[i] == d[i - 1]);
            }
        }
        assert(keys_text(id_keys(ids)) =~= (a + seq![',']) + b);
        lemma_split_commas_append(a + seq![','], b);
        assert((a + seq![',']).drop_last() =~= a);
        crate::ingot::lemma_split_commas_nonempty(a);
        let sa = split_commas(a);
        assert(split_commas(a + seq![',']) == sa.push(seq![]));
        assert(sa.push(seq![]).update(sa.len() as int, Seq::<char>::empty() + b) =~= sa.push(b));
        lemma_number_key(seq![' '], Seq::<char>::empty(), n, Seq::<char>::empty());
        assert(seq![' '] + Seq::<char>::empty() + d + Seq::<char>::empty() + Seq::<char>::empty()
            =~= b);
        assert(text_keys(keys_text(id_keys(ids))) =~= text_keys(a).push(rkey_of(b)));
        assert(id_keys(ids) =~= id_keys(rest).push(RKeyModel::Id(n)));
    }
}

/// Resolution survives a round trip through text: a raw list resolved
/// against an index, written as text, read back and resolved again against
/// the same index, gives the same ids. An empty result is written as empty
/// text, which reads back as one empty name; so where nothing resolved, no
/// entry of the index may be named by the empty text.
pub proof fn lemma_collate_text_round_trip(l: KeyListModel, index: Seq<EntryModel>)
    requires
        l is Raw,
        collated(l, index)->CollatedId_0.len() > 0 || id_of_name(index, seq![]) is None,
    ensures
        collated(KeyListModel::Raw(text_keys(list_text(collated(l, index)))), index) == collated(
            l,
            index,
        ),
{
    let keys = l->Raw_0;
    let ids = resolve_keys(keys, index);
    lemma_resolved_ids_known(keys, index);
    lemma_known_ids_resolve(ids, index);
    if ids.len() > 0 {
        lemma_id_keys_text(ids);
    } else {
        assert(keys_text(id_keys(ids)) == Seq::<char>::empty());
        assert(split_commas(Seq::<char>::empty()) =~= seq![Seq::<char>::empty()]);
        assert(trim(Seq::<char>::empty()) == Seq::<char>::empty());
        assert(unquote(Seq::<char>::empty()) =~= Seq::<char>::empty());
        assert(parsed_usize(Seq::<char>::empty()) is None);
        let tk = text_keys(Seq::<char>::empty());
        assert(rkey_of(Seq::<char>::empty()) == RKeyModel::Name(Seq::<char>::empty()));
        assert(tk =~= seq![RKeyModel::Name(Seq::<char>::empty())]);
        assert(tk.drop_last() =~= Seq::<RKeyModel>::empty());
        assert(resolve_keys(tk.drop_last(), index) =~= Seq::<usize>::empty());
        assert(resolve_key(tk.last(), index) is None);
        assert(resolve_keys(tk, index) =~= ids);
    }
}

/// Appends the decimal digits of `n`.
fn push_decimal(out: &mut String, n: usize)
    ensures
        final(out)@ == old(out)@ + decimal(n as nat),
    decreases n,
{
    if n >= 10 {
        push_decimal(out, n / 10);
    }
    let d: u8 = (n % 10) as u8;
    push_char(out, (d + 48) as char);
    proof {
        assert(((d + 48) as char) == digit_char((n % 10) as nat));
        if n >= 10 {
            assert(old(out)@ + decimal((n / 10) as nat) + seq![digit_char((n % 10) as nat)]
                =~= old(out)@ + decimal(n as nat));
        } else {
            assert(old(out)@.push(digit_char(n as nat)) =~= old(out)@ + decimal(n as nat));
        }
    }
}

/// Appends the characters of `s`.
fn push_text(out: &mut String, s: &String)
    ensures
        final(out)@ == old(out)@ + s@,
{
    out.append(s.as_str());
}

impl RKeyList {
    /// The list as text: its references, or its ids, separated by `, `,
    /// names as they are and ids in decimal.
    pub fn to_text(&self) -> (r: String)
        ensures
            r@ == list_text(self@),
    {
        let mut r = String::new();
        match self {
            RKeyList::Raw(keys) => {
                let ghost km = keys@.map_values(|k: RKeyRaw| k@);
                let mut i: usize = 0;
                while i < keys.len()
                    invariant
                        i <= keys.len(),
                        km == keys@.map_values(|k: RKeyRaw| k@),
                        r@ == keys_text(km.subrange(0, i as int)),
                    decreases keys.len() - i,
                {
                    let ghost r0 = r@;
                    if i > 0 {
                        push_char(&mut r, ',');
                        push_char(&mut r, ' ');
                    }
                    match &keys[i] {
                        RKeyRaw::String(s) => push_text(&mut r, s),
                        RKeyRaw::Usize(n) => push_decimal(&mut r, *n),
                    }
                    proof {
                        let sub = km.subrange(0, i + 1);
                        assert(sub.drop_last() =~= km.subrange(0, i as int));
                        assert(sub.last() == keys@[i as int]@);
                        if i == 0 {
                            assert(r@ =~= keys_text(sub));
                        } else {
                            assert(r@ =~= r0 + seq![',', ' '] + key_text(sub.last()));
                        }
                    }
                    i = i + 1;
                }
                assert(km.subrange(0, keys.len() as int) =~= km);
            },
            RKeyList::CollatedId(ids) => {
                let ghost km = id_keys(ids@);
                let mut i: usize = 0;
                while i < ids.len()
                    invariant
                        i <= ids.len(),
                        km == id_keys(ids@),
                        r@ == keys_text(km.subrange(0, i as int)),
                    decreases ids.len() - i,
                {
                    let ghost r0 = r@;
                    if i > 0 {
                        push_char(&mut r, ',');
                        push_char(&mut r, ' ');
                    }
                    push_decimal(&mut r, ids[i]);
                    proof {
                        let sub = km.subrange(0, i + 1);
                        assert(sub.drop_last() =~= km.subrange(0, i as int));
                        assert(sub.last() == RKeyModel::Id(ids@[i as int]));
                        if i == 0 {
                            assert(r@ =~= keys_text(sub));
                        } else {
                            assert(r@ =~= r0 + seq![',', ' '] + key_text(sub.last()));
                        }
                    }
                    i = i + 1;
                }
                assert(km.subrange(0, ids.len() as int) =~= km);
            },
        }
        r
    }
}

} // verus!
