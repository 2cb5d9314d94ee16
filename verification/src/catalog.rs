//! The catalog search index: one snapshot of normalised per-entry search
//! keys, replaced wholesale on every rebuild, answering filter-and-sort
//! queries with ordered entry identifiers.

use vstd::prelude::*;

use crate::dates::parse_date_ms_spec;
use crate::dates::parse_release_date_ms;
use crate::entry::CatalogEntry;
use crate::entry::EntryModel;
use crate::entry::VersionModel;
use crate::strutil::contains_chars;
use crate::strutil::contains_seq;
use crate::strutil::lex_cmp;
use crate::strutil::lex_cmp_spec;
use crate::strutil::split_spaces;
use crate::strutil::split_ws;
use crate::text::chars_of;
use crate::text::normalize;
use crate::text::normalize_spec;

verus! {

/// Mathematical view of one indexed entry.
pub struct ItemModel {
    pub id: Seq<char>,
    pub name_key: Seq<char>,
    pub author_key: Seq<char>,
    pub summary_key: Seq<char>,
    pub item_type: Seq<char>,
    pub tags: Seq<Seq<char>>,
    pub updated_at: Option<i64>,
}

/// One indexed entry: the identifier, the normalised search keys, the type
/// and tags verbatim, and the derived last-updated timestamp.
#[derive(Debug)]
pub struct IndexItem {
    pub id: String,
    pub name_key: String,
    pub author_key: String,
    pub summary_key: String,
    pub item_type: String,
    pub tags: Vec<String>,
    pub updated_at: Option<i64>,
}

impl View for IndexItem {
    type V = ItemModel;

    open spec fn view(&self) -> ItemModel {
        ItemModel {
            id: self.id@,
            name_key: self.name_key@,
            author_key: self.author_key@,
            summary_key: self.summary_key@,
            item_type: self.item_type@,
            tags: self.tags.deep_view(),
            updated_at: self.updated_at,
        }
    }
}

impl DeepView for IndexItem {
    type V = ItemModel;

    open spec fn deep_view(&self) -> ItemModel {
        self.view()
    }
}

/// The derived last-updated timestamp of an entry: the parsed release date
/// of the last element of its version list — order as given is
/// authoritative, not the maximum over all versions.
pub open spec fn updated_ms_of(versions: Seq<VersionModel>) -> Option<i64> {
    if versions.len() == 0 {
        None
    } else {
        parse_date_ms_spec(versions.last().release_date)
    }
}

/// The index entry an accepted catalog entry turns into.
pub open spec fn item_of_entry(e: EntryModel) -> ItemModel {
    ItemModel {
        id: e.id,
        name_key: normalize_spec(e.name),
        author_key: normalize_spec(e.author),
        summary_key: normalize_spec(e.summary),
        item_type: e.item_type,
        tags: e.tags,
        updated_at: updated_ms_of(e.versions),
    }
}

/// The index built from a catalog: entries with an empty identifier are
/// dropped, the rest indexed in order.
pub open spec fn index_spec(es: Seq<EntryModel>) -> Seq<ItemModel>
    decreases es.len(),
{
    if es.len() == 0 {
        seq![]
    } else {
        let prev = index_spec(es.drop_last());
        if es.last().id.len() == 0 {
            prev
        } else {
            prev.push(item_of_entry(es.last()))
        }
    }
}

/// Copies of the given strings.
fn clone_strings(v: &Vec<String>) -> (r: Vec<String>)
    ensures
        r.deep_view() == v.deep_view(),
{
    let ghost vm = v.deep_view();
    proof {
        crate::cache::lemma_vec_deep_view(*v);
    }
    let n = v.len();
    let mut r: Vec<String> = Vec::new();
    for i in 0..n
        invariant
            n == v@.len(),
            vm == v.deep_view(),
            vm.len() == n,
            forall|k: int| 0 <= k < n ==> vm[k] == v@[k]@,
            r.deep_view() == vm.take(i as int),
    {
        let ghost rd = r.deep_view();
        proof {
            crate::cache::lemma_vec_deep_view(r);
        }
        r.push(v[i].clone());
        proof {
            crate::cache::lemma_vec_deep_view(r);
            assert(r.deep_view() =~= rd.push(vm[i as int]));
            assert(rd.push(vm[i as int]) =~= vm.take(i + 1));
        }
    }
    proof {
        assert(vm.take(n as int) =~= vm);
    }
    r
}

/// The search index: one snapshot, replaced as a whole by `set_catalog_index`
/// and read by `query_catalog_index`.
pub struct CatalogIndex {
    items: Vec<IndexItem>,
}

impl View for CatalogIndex {
    type V = Seq<ItemModel>;

    closed spec fn view(&self) -> Seq<ItemModel> {
        self.items.deep_view()
    }
}

impl CatalogIndex {
    /// An empty index.
    pub fn new() -> (s: Self)
        ensures
            s@ == Seq::<ItemModel>::empty(),
    {
        let items: Vec<IndexItem> = Vec::new();
        proof {
            crate::cache::lemma_vec_deep_view(items);
            assert(items.deep_view() =~= Seq::<ItemModel>::empty());
        }
        CatalogIndex { items }
    }

    /// How many entries the index holds.
    pub fn len(&self) -> (n: usize)
        ensures
            n == self@.len(),
    {
        proof {
            crate::cache::lemma_vec_deep_view(self.items);
        }
        self.items.len()
    }

    /// Replace the whole index with one built from the given catalog:
    /// entries with an empty identifier are dropped; the rest get normalised
    /// name, author and summary keys, their type and tags verbatim, and the
    /// timestamp derived from the last version's release date. Returns the
    /// number of indexed entries.
    pub fn set_catalog_index(&mut self, entries: &Vec<CatalogEntry>) -> (n: usize)
        ensures
            final(self)@ == index_spec(entries.deep_view()),
            n == final(self)@.len(),
    {
        let ghost em = entries.deep_view();
        proof {
            crate::cache::lemma_vec_deep_view(*entries);
        }
        let n = entries.len();
        let mut items: Vec<IndexItem> = Vec::new();
        proof {
            assert(em.take(0) =~= Seq::<EntryModel>::empty());
            crate::cache::lemma_vec_deep_view(items);
            assert(items.deep_view() =~= index_spec(em.take(0)));
        }
        for i in 0..n
            invariant
                n == entries@.len(),
                em == entries.deep_view(),
                em.len() == n,
                forall|k: int| 0 <= k < n ==> em[k] == entries@[k].deep_view(),
                items.deep_view() == index_spec(em.take(i as int)),
        {
            proof {
                assert(em.take(i + 1).drop_last() =~= em.take(i as int));
                assert(em.take(i + 1).last() == em[i as int]);
            }
            let e = &entries[i];
            if !e.id.as_str().is_empty() {
                let nv = e.versions.len();
                let updated_at: Option<i64> = if nv == 0 {
                    None
                } else {
                    proof {
                        crate::cache::lemma_vec_deep_view(e.versions);
                        assert(e.versions.deep_view()[nv - 1] == e.versions@[nv
                            - 1].deep_view());
                    }
                    parse_release_date_ms(e.versions[nv - 1].release_date.as_str())
                };
                let item = IndexItem {
                    id: e.id.clone(),
                    name_key: normalize(e.name.as_str()),
                    author_key: normalize(e.author.as_str()),
                    summary_key: normalize(e.summary.as_str()),
                    item_type: e.item_type.clone(),
                    tags: clone_strings(&e.tags),
                    updated_at,
                };
                proof {
                    assert(item@ == item_of_entry(em[i as int]));
                }
                let ghost rd = items.deep_view();
                proof {
                    crate::cache::lemma_vec_deep_view(items);
                }
                items.push(item);
                proof {
                    crate::cache::lemma_vec_deep_view(items);
                    assert(items.deep_view() =~= rd.push(item_of_entry(em[i as int])));
                }
            }
        }
        proof {
            assert(em.take(n as int) =~= em);
        }
        let count = items.len();
        proof {
            crate::cache::lemma_vec_deep_view(items);
        }
        self.items = items;
        count
    }
}

/// A query term occurs in one of the entry's three search keys.
pub open spec fn term_hit(it: ItemModel, t: Seq<char>) -> bool {
    contains_seq(it.name_key, t) || contains_seq(it.author_key, t) || contains_seq(
        it.summary_key,
        t,
    )
}

/// Every query term occurs in some field: AND across terms, OR across
/// fields. No terms pass everything.
pub open spec fn passes_text(it: ItemModel, terms: Seq<Seq<char>>) -> bool {
    forall|k: int| 0 <= k < terms.len() ==> term_hit(it, terms[k])
}

/// The entry shares at least one tag with the filter; an empty filter passes
/// everything.
pub open spec fn passes_tags(it: ItemModel, tagf: Seq<Seq<char>>) -> bool {
    tagf.len() == 0 || exists|k: int| 0 <= k < it.tags.len() && tagf.contains(it.tags[k])
}

/// The entry's type is one of the filter's; an empty filter passes
/// everything.
pub open spec fn passes_types(it: ItemModel, typef: Seq<Seq<char>>) -> bool {
    typef.len() == 0 || typef.contains(it.item_type)
}

/// All three filters together.
pub open spec fn passes(
    it: ItemModel,
    terms: Seq<Seq<char>>,
    tagf: Seq<Seq<char>>,
    typef: Seq<Seq<char>>,
) -> bool {
    passes_text(it, terms) && passes_tags(it, tagf) && passes_types(it, typef)
}

/// The indices below `n` whose entries pass the filters, in increasing
/// (snapshot) order.
pub open spec fn filtered_upto(
    items: Seq<ItemModel>,
    terms: Seq<Seq<char>>,
    tagf: Seq<Seq<char>>,
    typef: Seq<Seq<char>>,
    n: int,
) -> Seq<int>
    decreases n,
{
    if n <= 0 {
        seq![]
    } else {
        let prev = filtered_upto(items, terms, tagf, typef, n - 1);
        if passes(items[n - 1], terms, tagf, typef) {
            prev.push(n - 1)
        } else {
            prev
        }
    }
}

/// Three-way comparison of two indexed entries under a sort key. For the
/// name sort, the normalised name keys are compared lexicographically. For
/// the default (newest) sort, the derived timestamps are compared, an entry
/// lacking one sorting as greater than any entry with one, and two entries
/// both lacking one falling back to the name key.
pub open spec fn cmp_items(a: ItemModel, b: ItemModel, name_mode: bool) -> int {
    if name_mode {
        lex_cmp_spec(a.name_key, b.name_key)
    } else {
        match (a.updated_at, b.updated_at) {
            (Option::Some(x), Option::Some(y)) => if x < y {
                -1
            } else if x > y {
                1
            } else {
                0
            },
            (Option::Some(x), Option::None) => -1,
            (Option::None, Option::Some(y)) => 1,
            (Option::None, Option::None) => lex_cmp_spec(a.name_key, b.name_key),
        }
    }
}

/// The entry comparison under a sort direction: reversed for a descending
/// sort.
pub open spec fn key_cmp(
    items: Seq<ItemModel>,
    name_mode: bool,
    desc: bool,
    i: int,
    j: int,
) -> int {
    let c = cmp_items(items[i], items[j], name_mode);
    if desc {
        -c
    } else {
        c
    }
}

/// The strict order the sort uses: the directed entry comparison, with ties
/// always broken by snapshot position — that is what makes the sort stable.
pub open spec fn idx_lt(
    items: Seq<ItemModel>,
    name_mode: bool,
    desc: bool,
    i: int,
    j: int,
) -> bool {
    key_cmp(items, name_mode, desc, i, j) < 0 || (key_cmp(items, name_mode, desc, i, j) == 0 && i
        < j)
}

/// A list of indices as mathematical integers.
pub open spec fn idxs_int(s: Seq<usize>) -> Seq<int> {
    s.map_values(|u: usize| u as int)
}

/// The index inserted before the first list element it is below.
pub open spec fn insert_idx(
    s: Seq<int>,
    x: int,
    items: Seq<ItemModel>,
    name_mode: bool,
    desc: bool,
) -> Seq<int>
    decreases s.len(),
{
    if s.len() == 0 {
        seq![x]
    } else if idx_lt(items, name_mode, desc, x, s[0]) {
        seq![x] + s
    } else {
        seq![s[0]] + insert_idx(s.drop_first(), x, items, name_mode, desc)
    }
}

/// Insertion sort of the index list under the query order.
pub open spec fn sort_idxs(
    s: Seq<int>,
    items: Seq<ItemModel>,
    name_mode: bool,
    desc: bool,
) -> Seq<int>
    decreases s.len(),
{
    if s.len() == 0 {
        seq![]
    } else {
        insert_idx(sort_idxs(s.drop_last(), items, name_mode, desc), s.last(), items, name_mode, desc)
    }
}

/// The comparison of two entries, as an executable value.
fn cmp_items_exec(a: &IndexItem, b: &IndexItem, name_mode: bool) -> (r: i32)
    ensures
        -1 <= r <= 1,
        r as int == cmp_items(a@, b@, name_mode),
{
    proof {
        crate::strutil::lemma_lex_bounded(a@.name_key, b@.name_key);
    }
    if name_mode {
        lex_cmp(&chars_of(a.name_key.as_str()), &chars_of(b.name_key.as_str()))
    } else {
        match (a.updated_at, b.updated_at) {
            (Option::Some(x), Option::Some(y)) => {
                if x < y {
                    -1
                } else if x > y {
                    1
                } else {
                    0
                }
            },
            (Option::Some(_), Option::None) => -1,
            (Option::None, Option::Some(_)) => 1,
            (Option::None, Option::None) => lex_cmp(
                &chars_of(a.name_key.as_str()),
                &chars_of(b.name_key.as_str()),
            ),
        }
    }
}

/// The strict sort order, as an executable test.
fn idx_lt_exec(items: &Vec<IndexItem>, name_mode: bool, desc: bool, a: usize, b: usize) -> (r:
    bool)
    requires
        a < items@.len(),
        b < items@.len(),
    ensures
        r == idx_lt(items.deep_view(), name_mode, desc, a as int, b as int),
{
    proof {
        crate::cache::lemma_vec_deep_view(*items);
    }
    let c = cmp_items_exec(&items[a], &items[b], name_mode);
    let cc = if desc {
        -c
    } else {
        c
    };
    cc < 0 || (cc == 0 && a < b)
}

/// Inserting at the position scanning finds is the recursive insertion.
proof fn lemma_insert_at(
    s: Seq<int>,
    x: int,
    items: Seq<ItemModel>,
    name_mode: bool,
    desc: bool,
    j: int,
)
    requires
        0 <= j <= s.len(),
        forall|k: int| 0 <= k < j ==> !idx_lt(items, name_mode, desc, x, s[k]),
        j < s.len() ==> idx_lt(items, name_mode, desc, x, s[j]),
    ensures
        insert_idx(s, x, items, name_mode, desc) == s.take(j) + seq![x] + s.skip(j),
    decreases s.len(),
{
    if s.len() == 0 {
        assert(s.take(0) + seq![x] + s.skip(0) =~= seq![x]);
    } else if idx_lt(items, name_mode, desc, x, s[0]) {
        assert(j == 0);
        assert(s.take(0) + seq![x] + s.skip(0) =~= seq![x] + s);
    } else {
        assert(j >= 1);
        lemma_insert_at(s.drop_first(), x, items, name_mode, desc, j - 1);
        assert(seq![s[0]] + (s.drop_first().take(j - 1) + seq![x] + s.drop_first().skip(j - 1))
            =~= s.take(j) + seq![x] + s.skip(j));
    }
}

/// Insert an index into a list at its sort position.
fn insert_sorted(v: &mut Vec<usize>, x: usize, items: &Vec<IndexItem>, name_mode: bool, desc: bool)
    requires
        x < items@.len(),
        forall|k: int| 0 <= k < old(v)@.len() ==> old(v)@[k] < items@.len(),
    ensures
        idxs_int(final(v)@) == insert_idx(
            idxs_int(old(v)@),
            x as int,
            items.deep_view(),
            name_mode,
            desc,
        ),
        forall|k: int| 0 <= k < final(v)@.len() ==> final(v)@[k] < items@.len(),
{
    let ghost s = idxs_int(v@);
    let ghost im = items.deep_view();
    let n = v.len();
    let mut j: usize = 0;
    while j < n && !idx_lt_exec(items, name_mode, desc, x, v[j])
        invariant
            n == v@.len(),
            s == idxs_int(v@),
            im == items.deep_view(),
            x < items@.len(),
            forall|k: int| 0 <= k < n ==> v@[k] < items@.len(),
            0 <= j <= n,
            forall|k: int| 0 <= k < j ==> !idx_lt(im, name_mode, desc, x as int, s[k]),
        decreases n - j,
    {
        j += 1;
    }
    proof {
        lemma_insert_at(s, x as int, im, name_mode, desc, j as int);
    }
    v.insert(j, x);
    proof {
        assert(idxs_int(v@) =~= s.take(j as int) + seq![x as int] + s.skip(j as int));
    }
}

/// Sort a list of entry indices under the query order. The order is strict
/// and breaks key ties by snapshot position, so the result is the stable
/// sort of the input.
fn sort_indices(input: &Vec<usize>, items: &Vec<IndexItem>, name_mode: bool, desc: bool) -> (r:
    Vec<usize>)
    requires
        forall|k: int| 0 <= k < input@.len() ==> input@[k] < items@.len(),
    ensures
        idxs_int(r@) == sort_idxs(idxs_int(input@), items.deep_view(), name_mode, desc),
        forall|k: int| 0 <= k < r@.len() ==> r@[k] < items@.len(),
{
    let ghost sm = idxs_int(input@);
    let ghost im = items.deep_view();
    let n = input.len();
    let mut out: Vec<usize> = Vec::new();
    proof {
        assert(idxs_int(input@.take(0)) =~= Seq::<int>::empty());
        assert(idxs_int(out@) =~= sort_idxs(idxs_int(input@.take(0)), im, name_mode, desc));
    }
    for i in 0..n
        invariant
            n == input@.len(),
            sm == idxs_int(input@),
            im == items.deep_view(),
            forall|k: int| 0 <= k < n ==> input@[k] < items@.len(),
            idxs_int(out@) == sort_idxs(idxs_int(input@.take(i as int)), im, name_mode, desc),
            forall|k: int| 0 <= k < out@.len() ==> out@[k] < items@.len(),
    {
        proof {
            assert(input@.take(i + 1).drop_last() =~= input@.take(i as int));
            assert(idxs_int(input@.take(i + 1)).drop_last() =~= idxs_int(input@.take(i as int)));
            assert(idxs_int(input@.take(i + 1)).last() == input@[i as int] as int);
        }
        insert_sorted(&mut out, input[i], items, name_mode, desc);
    }
    proof {
        assert(input@.take(n as int) =~= input@);
        assert(idxs_int(input@.take(n as int)) =~= idxs_int(input@));
    }
    out
}

/// The view of an optional string.
pub open spec fn opt_str(o: Option<String>) -> Option<Seq<char>> {
    match o {
        Option::Some(s) => Some(s@),
        Option::None => None,
    }
}

/// The view of an optional string list.
pub open spec fn opt_strs(o: Option<Vec<String>>) -> Option<Seq<Seq<char>>> {
    match o {
        Option::Some(v) => Some(v.deep_view()),
        Option::None => None,
    }
}

/// The full meaning of a query: normalise the text and split it into terms;
/// keep the snapshot indices whose entries pass the text, tag and type
/// filters; sort them — by name for the `name` sort key (ascending by
/// default), by derived timestamp otherwise (descending by default), an
/// explicit direction always winning — and return the entries' identifiers
/// in that order.
pub open spec fn query_spec(
    items: Seq<ItemModel>,
    q: Option<Seq<char>>,
    tags: Option<Seq<Seq<char>>>,
    types: Option<Seq<Seq<char>>>,
    sort: Option<Seq<char>>,
    dir: Option<Seq<char>>,
) -> Seq<Seq<char>> {
    let terms = split_ws(normalize_spec(match q {
        Option::Some(s) => s,
        Option::None => Seq::empty(),
    }));
    let tagf = match tags {
        Option::Some(t) => t,
        Option::None => seq![],
    };
    let typef = match types {
        Option::Some(t) => t,
        Option::None => seq![],
    };
    let name_mode = sort matches Some(s) && s == "name"@;
    let desc = match dir {
        Option::Some(d) => d == "desc"@,
        Option::None => !name_mode,
    };
    let sorted = query_order(items, terms, tagf, typef, name_mode, desc);
    sorted.map_values(|ii: int| items[ii].id)
}

/// The snapshot indices a query returns, in their final order: the indices
/// passing the filters, sorted by the query order.
pub open spec fn query_order(
    items: Seq<ItemModel>,
    terms: Seq<Seq<char>>,
    tagf: Seq<Seq<char>>,
    typef: Seq<Seq<char>>,
    name_mode: bool,
    desc: bool,
) -> Seq<int> {
    sort_idxs(
        filtered_upto(items, terms, tagf, typef, items.len() as int),
        items,
        name_mode,
        desc,
    )
}

/// Whether the entry shares a tag with the filter list.
fn any_tag_in(tags: &Vec<String>, filter: &Vec<String>) -> (r: bool)
    ensures
        r == exists|k: int|
            0 <= k < tags.deep_view().len() && filter.deep_view().contains(tags.deep_view()[k]),
{
    proof {
        crate::cache::lemma_vec_deep_view(*tags);
    }
    let n = tags.len();
    for k in 0..n
        invariant
            n == tags@.len(),
            tags.deep_view().len() == n,
            forall|l: int| 0 <= l < n ==> tags.deep_view()[l] == tags@[l]@,
            forall|l: int| 0 <= l < k ==> !filter.deep_view().contains(tags.deep_view()[l]),
    {
        if crate::detect::contains_string(filter, &tags[k]) {
            assert(filter.deep_view().contains(tags.deep_view()[k as int]));
            return true;
        }
    }
    false
}

/// Whether an entry passes all three filters.
fn passes_exec(it: &IndexItem, terms: &Vec<Vec<char>>, tagf: &Vec<String>, typef: &Vec<String>) -> (r:
    bool)
    ensures
        r == passes(it@, terms.deep_view(), tagf.deep_view(), typef.deep_view()),
{
    let name_cs = chars_of(it.name_key.as_str());
    let author_cs = chars_of(it.author_key.as_str());
    let summary_cs = chars_of(it.summary_key.as_str());
    proof {
        crate::strutil::lemma_deep_view_vecs(*terms);
    }
    let tn = terms.len();
    for t in 0..tn
        invariant
            tn == terms@.len(),
            terms.deep_view().len() == tn,
            forall|k: int| 0 <= k < tn ==> terms.deep_view()[k] == terms@[k]@,
            name_cs@ == it@.name_key,
            author_cs@ == it@.author_key,
            summary_cs@ == it@.summary_key,
            forall|k: int| 0 <= k < t ==> term_hit(it@, terms.deep_view()[k]),
    {
        let hit = contains_chars(&name_cs, &terms[t]) || contains_chars(&author_cs, &terms[t])
            || contains_chars(&summary_cs, &terms[t]);
        if !hit {
            assert(!term_hit(it@, terms.deep_view()[t as int]));
            return false;
        }
    }
    proof {
        crate::cache::lemma_vec_deep_view(*tagf);
        crate::cache::lemma_vec_deep_view(*typef);
        crate::cache::lemma_vec_deep_view(it.tags);
    }
    let tag_ok = tagf.len() == 0 || any_tag_in(&it.tags, tagf);
    proof {
        if tagf.deep_view().len() > 0 {
            if tag_ok {
                let k = choose|k: int|
                    0 <= k < it.tags.deep_view().len() && tagf.deep_view().contains(
                        it.tags.deep_view()[k],
                    );
                assert(0 <= k < it@.tags.len() && tagf.deep_view().contains(it@.tags[k]));
            } else {
                assert forall|k: int| 0 <= k < it@.tags.len() implies !tagf.deep_view().contains(
                    it@.tags[k],
                ) by {
                    assert(!tagf.deep_view().contains(it.tags.deep_view()[k]));
                }
            }
        }
        assert(tag_ok == passes_tags(it@, tagf.deep_view()));
    }
    if !tag_ok {
        return false;
    }
    let type_ok = typef.len() == 0 || crate::detect::contains_string(typef, &it.item_type);
    type_ok
}

impl CatalogIndex {
    /// Answer a query against the current snapshot: filter by normalised
    /// text terms (every term must occur in the name, author or summary
    /// key), by tags (at least one in common) and by type (membership), then
    /// sort — by name key for the `name` sort (ascending unless directed
    /// otherwise), by derived timestamp otherwise (descending unless
    /// directed otherwise, entries without a timestamp sorting as greater) —
    /// and return the identifiers in order. Key ties keep snapshot order.
    pub fn query_catalog_index(
        &self,
        q: Option<String>,
        tags: Option<Vec<String>>,
        types: Option<Vec<String>>,
        sort: Option<String>,
        dir: Option<String>,
    ) -> (r: Vec<String>)
        ensures
            r.deep_view() == query_spec(
                self@,
                opt_str(q),
                opt_strs(tags),
                opt_strs(types),
                opt_str(sort),
                opt_str(dir),
            ),
    {
        let ghost im = self@;
        let qn: String = match &q {
            Option::Some(s) => normalize(s.as_str()),
            Option::None => {
                proof {
                    reveal_strlit("");
                    assert(""@ =~= Seq::<char>::empty());
                }
                normalize("")
            },
        };
        let terms = split_spaces(&chars_of(qn.as_str()));
        let tagf: Vec<String> = match tags {
            Option::Some(v) => v,
            Option::None => Vec::new(),
        };
        let typef: Vec<String> = match types {
            Option::Some(v) => v,
            Option::None => Vec::new(),
        };
        proof {
            crate::cache::lemma_vec_deep_view(tagf);
            crate::cache::lemma_vec_deep_view(typef);
            if tagf@.len() == 0 {
                assert(tagf.deep_view() =~= Seq::<Seq<char>>::empty());
            }
            if typef@.len() == 0 {
                assert(typef.deep_view() =~= Seq::<Seq<char>>::empty());
            }
        }
        let name_lit = String::from_str("name");
        let name_mode = match &sort {
            Option::Some(s) => *s == name_lit,
            Option::None => false,
        };
        let desc_lit = String::from_str("desc");
        let desc = match &dir {
            Option::Some(d) => *d == desc_lit,
            Option::None => !name_mode,
        };
        let ghost tm = terms.deep_view();
        let ghost gm = tagf.deep_view();
        let ghost ym = typef.deep_view();
        proof {
            crate::cache::lemma_vec_deep_view(self.items);
        }
        let n = self.items.len();
        let mut fidx: Vec<usize> = Vec::new();
        proof {
            assert(idxs_int(fidx@) =~= filtered_upto(im, tm, gm, ym, 0));
        }
        for i in 0..n
            invariant
                n == self.items@.len(),
                im == self@,
                im.len() == n,
                forall|k: int| 0 <= k < n ==> im[k] == self.items@[k].deep_view(),
                tm == terms.deep_view(),
                gm == tagf.deep_view(),
                ym == typef.deep_view(),
                idxs_int(fidx@) == filtered_upto(im, tm, gm, ym, i as int),
                forall|k: int| 0 <= k < fidx@.len() ==> fidx@[k] < n,
        {
            if passes_exec(&self.items[i], &terms, &tagf, &typef) {
                let ghost fd = idxs_int(fidx@);
                fidx.push(i);
                proof {
                    assert(idxs_int(fidx@) =~= fd.push(i as int));
                }
            }
        }
        let sorted = sort_indices(&fidx, &self.items, name_mode, desc);
        let ghost sm = idxs_int(sorted@);
        let m = sorted.len();
        let mut r: Vec<String> = Vec::new();
        proof {
            crate::cache::lemma_vec_deep_view(r);
            assert(r.deep_view() =~= sm.map_values(|ii: int| im[ii].id).take(0));
        }
        for k in 0..m
            invariant
                m == sorted@.len(),
                sm == idxs_int(sorted@),
                im == self@,
                im.len() == self.items@.len(),
                forall|l: int| 0 <= l < im.len() ==> im[l] == self.items@[l].deep_view(),
                forall|l: int| 0 <= l < m ==> sorted@[l] < self.items@.len(),
                r.deep_view() == sm.map_values(|ii: int| im[ii].id).take(k as int),
        {
            let idx = sorted[k];
            let ghost rd = r.deep_view();
            proof {
                crate::cache::lemma_vec_deep_view(r);
            }
            r.push(self.items[idx].id.clone());
            proof {
                crate::cache::lemma_vec_deep_view(r);
                assert(sm[k as int] == sorted@[k as int] as int);
                assert(r.deep_view() =~= rd.push(im[sm[k as int]].id));
                assert(rd.push(im[sm[k as int]].id) =~= sm.map_values(|ii: int| im[ii].id).take(
                    k + 1,
                ));
            }
        }
        proof {
            assert(sm.map_values(|ii: int| im[ii].id).take(m as int) =~= sm.map_values(
                |ii: int| im[ii].id,
            ));
        }
        r
    }
}


/// Comparing entries the other way flips the sign.
proof fn lemma_cmp_antisym(a: ItemModel, b: ItemModel, name_mode: bool)
    ensures
        cmp_items(a, b, name_mode) == -cmp_items(b, a, name_mode),
{
    crate::strutil::lemma_lex_antisym(a.name_key, b.name_key);
}

/// The entry comparison is transitive on its non-positive side.
proof fn lemma_cmp_trans_le(a: ItemModel, b: ItemModel, c: ItemModel, name_mode: bool)
    requires
        cmp_items(a, b, name_mode) <= 0,
        cmp_items(b, c, name_mode) <= 0,
    ensures
        cmp_items(a, c, name_mode) <= 0,
{
    if name_mode {
        crate::strutil::lemma_lex_trans(a.name_key, b.name_key, c.name_key);
    } else {
        match (a.updated_at, b.updated_at, c.updated_at) {
            (Option::None, Option::None, Option::None) => {
                crate::strutil::lemma_lex_trans(a.name_key, b.name_key, c.name_key);
            },
            _ => {},
        }
    }
}

/// Two ties chain to a tie.
proof fn lemma_cmp_zero_trans(a: ItemModel, b: ItemModel, c: ItemModel, name_mode: bool)
    requires
        cmp_items(a, b, name_mode) == 0,
        cmp_items(b, c, name_mode) == 0,
    ensures
        cmp_items(a, c, name_mode) == 0,
{
    if name_mode {
        crate::strutil::lemma_lex_zero(a.name_key, b.name_key);
        crate::strutil::lemma_lex_zero(b.name_key, c.name_key);
        crate::strutil::lemma_lex_zero(a.name_key, c.name_key);
    } else {
        match (a.updated_at, b.updated_at, c.updated_at) {
            (Option::None, Option::None, Option::None) => {
                crate::strutil::lemma_lex_zero(a.name_key, b.name_key);
                crate::strutil::lemma_lex_zero(b.name_key, c.name_key);
                crate::strutil::lemma_lex_zero(a.name_key, c.name_key);
            },
            _ => {},
        }
    }
}

/// The sort order is irreflexive and asymmetric.
proof fn lemma_idx_lt_asym(items: Seq<ItemModel>, nm: bool, desc: bool, i: int, j: int)
    ensures
        !(idx_lt(items, nm, desc, i, j) && idx_lt(items, nm, desc, j, i)),
{
    lemma_cmp_antisym(items[i], items[j], nm);
}

/// Distinct indices are ordered one way or the other.
proof fn lemma_idx_lt_total(items: Seq<ItemModel>, nm: bool, desc: bool, i: int, j: int)
    requires
        i != j,
    ensures
        idx_lt(items, nm, desc, i, j) || idx_lt(items, nm, desc, j, i),
{
    lemma_cmp_antisym(items[i], items[j], nm);
}

/// The sort order is transitive.
proof fn lemma_idx_lt_trans(items: Seq<ItemModel>, nm: bool, desc: bool, i: int, j: int, k: int)
    requires
        idx_lt(items, nm, desc, i, j),
        idx_lt(items, nm, desc, j, k),
    ensures
        idx_lt(items, nm, desc, i, k),
{
    let a = items[i];
    let b = items[j];
    let c = items[k];
    lemma_cmp_antisym(a, b, nm);
    lemma_cmp_antisym(b, c, nm);
    lemma_cmp_antisym(a, c, nm);
    if desc {
        lemma_cmp_trans_le(c, b, a, nm);
        if cmp_items(c, b, nm) == 0 && cmp_items(b, a, nm) == 0 {
            lemma_cmp_zero_trans(c, b, a, nm);
        } else if cmp_items(c, a, nm) == 0 {
            // a strict step with a tied total comparison is impossible
            lemma_cmp_trans_le(b, a, c, nm);
            lemma_cmp_trans_le(a, c, b, nm);
        }
    } else {
        lemma_cmp_trans_le(a, b, c, nm);
        if cmp_items(a, b, nm) == 0 && cmp_items(b, c, nm) == 0 {
            lemma_cmp_zero_trans(a, b, c, nm);
        } else if cmp_items(a, c, nm) == 0 {
            lemma_cmp_trans_le(b, c, a, nm);
            lemma_cmp_trans_le(c, a, b, nm);
        }
    }
}

/// Every pair of positions respects the sort order.
pub open spec fn sorted_by(s: Seq<int>, items: Seq<ItemModel>, nm: bool, desc: bool) -> bool {
    forall|p: int, q: int| 0 <= p < q < s.len() ==> idx_lt(items, nm, desc, s[p], s[q])
}

/// Inserting a fresh index keeps the list sorted and adds exactly it.
proof fn lemma_insert_props(s: Seq<int>, x: int, items: Seq<ItemModel>, nm: bool, desc: bool)
    requires
        sorted_by(s, items, nm, desc),
        forall|k: int| 0 <= k < s.len() ==> s[k] != x,
    ensures
        sorted_by(insert_idx(s, x, items, nm, desc), items, nm, desc),
        insert_idx(s, x, items, nm, desc).len() == s.len() + 1,
        forall|y: int|
            #[trigger] insert_idx(s, x, items, nm, desc).contains(y) <==> (s.contains(y) || y
                == x),
    decreases s.len(),
{
    let out = insert_idx(s, x, items, nm, desc);
    if s.len() == 0 {
        assert forall|y: int| #[trigger] out.contains(y) implies (s.contains(y) || y == x) by {}
        assert(out.contains(x)) by {
            assert(out[0] == x);
        }
    } else if idx_lt(items, nm, desc, x, s[0]) {
        assert(out =~= seq![x] + s);
        assert forall|p: int, q: int| 0 <= p < q < out.len() implies idx_lt(
            items,
            nm,
            desc,
            out[p],
            out[q],
        ) by {
            if p == 0 {
                if q > 1 {
                    lemma_idx_lt_trans(items, nm, desc, x, s[0], s[q - 1]);
                }
            }
        }
        assert forall|y: int| #[trigger] out.contains(y) implies (s.contains(y) || y == x) by {
            let w = choose|w: int| 0 <= w < out.len() && out[w] == y;
            if w > 0 {
                assert(s[w - 1] == y);
            }
        }
        assert forall|y: int| (s.contains(y) || y == x) implies #[trigger] out.contains(y) by {
            if y == x {
                assert(out[0] == y);
            } else {
                let w = choose|w: int| 0 <= w < s.len() && s[w] == y;
                assert(out[w + 1] == y);
            }
        }
    } else {
        lemma_idx_lt_total(items, nm, desc, x, s[0]);
        assert(idx_lt(items, nm, desc, s[0], x));
        assert(sorted_by(s.drop_first(), items, nm, desc)) by {
            assert forall|p: int, q: int| 0 <= p < q < s.drop_first().len() implies idx_lt(
                items,
                nm,
                desc,
                s.drop_first()[p],
                s.drop_first()[q],
            ) by {
                assert(s.drop_first()[p] == s[p + 1]);
                assert(s.drop_first()[q] == s[q + 1]);
            }
        }
        lemma_insert_props(s.drop_first(), x, items, nm, desc);
        let inner = insert_idx(s.drop_first(), x, items, nm, desc);
        assert(out =~= seq![s[0]] + inner);
        assert forall|p: int, q: int| 0 <= p < q < out.len() implies idx_lt(
            items,
            nm,
            desc,
            out[p],
            out[q],
        ) by {
            if p == 0 {
                assert(out[q] == inner[q - 1]);
                assert(inner.contains(inner[q - 1]));
                let y = inner[q - 1];
                if y == x {
                    assert(idx_lt(items, nm, desc, s[0], x));
                } else {
                    assert(s.drop_first().contains(y));
                    let w = choose|w: int| 0 <= w < s.drop_first().len() && s.drop_first()[w] == y;
                    assert(s[w + 1] == y);
                    assert(idx_lt(items, nm, desc, s[0], s[w + 1]));
                }
            } else {
                assert(out[p] == inner[p - 1]);
                assert(out[q] == inner[q - 1]);
            }
        }
        assert forall|y: int| #[trigger] out.contains(y) implies (s.contains(y) || y == x) by {
            let w = choose|w: int| 0 <= w < out.len() && out[w] == y;
            if w == 0 {
                assert(s[0] == y);
            } else {
                assert(inner[w - 1] == y);
                assert(inner.contains(y));
                if y != x {
                    assert(s.drop_first().contains(y));
                    let u = choose|u: int|
                        0 <= u < s.drop_first().len() && s.drop_first()[u] == y;
                    assert(s[u + 1] == y);
                }
            }
        }
        assert forall|y: int| (s.contains(y) || y == x) implies #[trigger] out.contains(y) by {
            if y == x {
                assert(inner.contains(y));
                let u = choose|u: int| 0 <= u < inner.len() && inner[u] == y;
                assert(out[u + 1] == y);
            } else {
                let w = choose|w: int| 0 <= w < s.len() && s[w] == y;
                if w == 0 {
                    assert(out[0] == y);
                } else {
                    assert(s.drop_first()[w - 1] == y);
                    assert(s.drop_first().contains(y));
                    assert(inner.contains(y));
                    let u = choose|u: int| 0 <= u < inner.len() && inner[u] == y;
                    assert(out[u + 1] == y);
                }
            }
        }
    }
}

/// Sorting a duplicate-free index list yields a sorted list with the same
/// members.
proof fn lemma_sort_props(s: Seq<int>, items: Seq<ItemModel>, nm: bool, desc: bool)
    requires
        forall|p: int, q: int| 0 <= p < q < s.len() ==> s[p] != s[q],
    ensures
        sorted_by(sort_idxs(s, items, nm, desc), items, nm, desc),
        sort_idxs(s, items, nm, desc).len() == s.len(),
        forall|y: int| #[trigger] sort_idxs(s, items, nm, desc).contains(y) <==> s.contains(y),
    decreases s.len(),
{
    let out = sort_idxs(s, items, nm, desc);
    if s.len() == 0 {
        assert forall|y: int| #[trigger] out.contains(y) implies s.contains(y) by {}
        assert forall|y: int| s.contains(y) implies #[trigger] out.contains(y) by {}
    } else {
        let dl = s.drop_last();
        assert(forall|p: int, q: int| 0 <= p < q < dl.len() ==> dl[p] != dl[q]) by {
            assert(forall|p: int| 0 <= p < dl.len() ==> dl[p] == s[p]);
        }
        lemma_sort_props(dl, items, nm, desc);
        let prev = sort_idxs(dl, items, nm, desc);
        assert(forall|k: int| 0 <= k < prev.len() ==> prev[k] != s.last()) by {
            assert forall|k: int| 0 <= k < prev.len() implies prev[k] != s.last() by {
                assert(prev.contains(prev[k]));
                assert(dl.contains(prev[k]));
                let w = choose|w: int| 0 <= w < dl.len() && dl[w] == prev[k];
                assert(s[w] == prev[k]);
            }
        }
        lemma_insert_props(prev, s.last(), items, nm, desc);
        assert forall|y: int| #[trigger] out.contains(y) implies s.contains(y) by {
            if y == s.last() {
                assert(s[s.len() - 1] == y);
            } else {
                assert(prev.contains(y));
                assert(dl.contains(y));
                let w = choose|w: int| 0 <= w < dl.len() && dl[w] == y;
                assert(s[w] == y);
            }
        }
        assert forall|y: int| s.contains(y) implies #[trigger] out.contains(y) by {
            let w = choose|w: int| 0 <= w < s.len() && s[w] == y;
            if w == s.len() - 1 {
                assert(out.contains(s.last()));
            } else {
                assert(dl[w] == y);
                assert(dl.contains(y));
                assert(prev.contains(y));
            }
        }
    }
}

/// The filtered index list: strictly increasing, within range, and holding
/// exactly the passing indices.
proof fn lemma_filtered_props(
    items: Seq<ItemModel>,
    terms: Seq<Seq<char>>,
    tagf: Seq<Seq<char>>,
    typef: Seq<Seq<char>>,
    n: int,
)
    requires
        n <= items.len(),
    ensures
        forall|p: int, q: int|
            0 <= p < q < filtered_upto(items, terms, tagf, typef, n).len() ==> filtered_upto(
                items,
                terms,
                tagf,
                typef,
                n,
            )[p] < filtered_upto(items, terms, tagf, typef, n)[q],
        forall|k: int|
            0 <= k < filtered_upto(items, terms, tagf, typef, n).len() ==> 0 <= #[trigger] filtered_upto(
                items,
                terms,
                tagf,
                typef,
                n,
            )[k] < n,
        forall|y: int|
            #[trigger] filtered_upto(items, terms, tagf, typef, n).contains(y) <==> (0 <= y < n
                && passes(items[y], terms, tagf, typef)),
    decreases n,
{
    let out = filtered_upto(items, terms, tagf, typef, n);
    if n <= 0 {
        assert forall|y: int| #[trigger] out.contains(y) implies (0 <= y < n && passes(
            items[y],
            terms,
            tagf,
            typef,
        )) by {}
    } else {
        lemma_filtered_props(items, terms, tagf, typef, n - 1);
        let prev = filtered_upto(items, terms, tagf, typef, n - 1);
        assert forall|y: int| #[trigger] out.contains(y) implies (0 <= y < n && passes(
            items[y],
            terms,
            tagf,
            typef,
        )) by {
            let w = choose|w: int| 0 <= w < out.len() && out[w] == y;
            if w < prev.len() {
                assert(prev[w] == y);
                assert(prev.contains(y));
            }
        }
        assert forall|y: int| (0 <= y < n && passes(items[y], terms, tagf, typef)) implies #[trigger] out.contains(
            y,
        ) by {
            if y < n - 1 {
                assert(prev.contains(y));
                let w = choose|w: int| 0 <= w < prev.len() && prev[w] == y;
                assert(out[w] == y);
            } else {
                assert(out[out.len() - 1] == y);
            }
        }
    }
}

/// Law: query text terms are conjunctive — with two terms, an entry passes
/// exactly when each term occurs in one of its name, author or summary keys
/// (possibly different ones) — and the tag filter is disjunctive: an entry
/// sharing any one tag with the filter passes it.
pub proof fn lemma_filter_semantics(
    it: ItemModel,
    t1: Seq<char>,
    t2: Seq<char>,
    x: Seq<char>,
    y: Seq<char>,
)
    ensures
        passes_text(it, seq![t1, t2]) <==> (term_hit(it, t1) && term_hit(it, t2)),
        it.tags.contains(x) ==> passes_tags(it, seq![x, y]),
{
    let ts = seq![t1, t2];
    assert(ts[0] == t1);
    assert(ts[1] == t2);
    if term_hit(it, t1) && term_hit(it, t2) {
        assert forall|k: int| 0 <= k < ts.len() implies term_hit(it, ts[k]) by {
            if k == 0 {
            } else {
                assert(ts[k] == t2);
            }
        }
    }
    if it.tags.contains(x) {
        let k = choose|k: int| 0 <= k < it.tags.len() && it.tags[k] == x;
        assert(seq![x, y][0] == x);
        assert(seq![x, y].contains(x));
        assert(0 <= k < it.tags.len() && seq![x, y].contains(it.tags[k]));
    }
}

/// Law: the sort is stable. Two entries that pass the filters and whose sort
/// keys compare equal appear in the result in their snapshot order, whatever
/// the sort key and direction; both appear.
pub proof fn lemma_sort_stability(
    items: Seq<ItemModel>,
    terms: Seq<Seq<char>>,
    tagf: Seq<Seq<char>>,
    typef: Seq<Seq<char>>,
    name_mode: bool,
    desc: bool,
    i: int,
    j: int,
)
    requires
        0 <= i < j < items.len(),
        passes(items[i], terms, tagf, typef),
        passes(items[j], terms, tagf, typef),
        cmp_items(items[i], items[j], name_mode) == 0,
    ensures
        query_order(items, terms, tagf, typef, name_mode, desc).contains(i),
        query_order(items, terms, tagf, typef, name_mode, desc).contains(j),
        forall|p: int, q: int|
            #![trigger query_order(items, terms, tagf, typef, name_mode, desc)[p], query_order(
                items,
                terms,
                tagf,
                typef,
                name_mode,
                desc,
            )[q]]
            (0 <= p < query_order(items, terms, tagf, typef, name_mode, desc).len() && 0 <= q
                < query_order(items, terms, tagf, typef, name_mode, desc).len() && query_order(
                items,
                terms,
                tagf,
                typef,
                name_mode,
                desc,
            )[p] == i && query_order(items, terms, tagf, typef, name_mode, desc)[q] == j) ==> p
                < q,
{
    let f = filtered_upto(items, terms, tagf, typef, items.len() as int);
    let out = query_order(items, terms, tagf, typef, name_mode, desc);
    lemma_filtered_props(items, terms, tagf, typef, items.len() as int);
    lemma_sort_props(f, items, name_mode, desc);
    assert(f.contains(i));
    assert(f.contains(j));
    assert(out.contains(i));
    assert(out.contains(j));
    assert(idx_lt(items, name_mode, desc, i, j));
    assert forall|p: int, q: int|
        #![trigger out[p], out[q]]
        (0 <= p < out.len() && 0 <= q < out.len() && out[p] == i && out[q] == j) implies p < q by {
        if p == q {
        } else if q < p {
            assert(idx_lt(items, name_mode, desc, out[q], out[p]));
            lemma_idx_lt_asym(items, name_mode, desc, i, j);
        }
    }
}

} // verus!
