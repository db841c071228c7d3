//! The import-grouping engine: buckets declarations by category and key,
//! merges each bucket's pairs into one tree, and renders the canonical
//! category blocks.

use vstd::prelude::*;

use crate::keys::{category_of_pair, key_le, key_le_exec, pair_category, Category, KeyV, UseKey,
    Visibility};
use crate::name::Name;
use crate::render::{render_statement, stmt_text};
use crate::serialize::emit_group;
use crate::tree::{group_insert, NodeV, Tree};
use crate::walk::{pairs_view, tree_pairs, walk_use_tree, PairV, UseTree};

verus! {

/// One parsed import declaration handed to the engine: its visibility, its
/// leading-separator flag, and its target syntax. Attribute decorations are
/// out of scope and must have been rejected upstream.
#[derive(Debug)]
pub struct UseItem {
    pub vis: Visibility,
    pub leading_colon: bool,
    pub tree: UseTree,
}

impl UseItem {
    /// The import key of this declaration.
    pub open spec fn key_v(&self) -> KeyV {
        KeyV { vis: self.vis@, leading_colon: self.leading_colon }
    }
}

/// One bucket entry: an import key with its merge tree's model.
pub type EntryV = (KeyV, Seq<NodeV>);

/// The models of an executable entry list.
pub open spec fn entries_deep(s: Seq<(UseKey, Tree)>) -> Seq<EntryV> {
    s.map_values(|e: (UseKey, Tree)| (e.0@, e.1.deep()))
}

/// The model of the whole grouping state: one entry list per category.
#[verifier::ext_equal]
pub struct BucketsV {
    pub std_entries: Seq<EntryV>,
    pub external_entries: Seq<EntryV>,
    pub crate_entries: Seq<EntryV>,
}

/// The empty grouping state.
pub open spec fn empty_buckets() -> BucketsV {
    BucketsV {
        std_entries: Seq::empty(),
        external_entries: Seq::empty(),
        crate_entries: Seq::empty(),
    }
}

/// Index of the first entry with the given key at or after `i`, or -1.
pub open spec fn entry_index_from(s: Seq<EntryV>, key: KeyV, i: int) -> int
    decreases s.len() - i when 0 <= i <= s.len()
{
    if i >= s.len() {
        -1
    } else if s[i].0 == key {
        i
    } else {
        entry_index_from(s, key, i + 1)
    }
}

/// Index of the first entry with the given key, or -1.
pub open spec fn entry_index(s: Seq<EntryV>, key: KeyV) -> int {
    entry_index_from(s, key, 0)
}

/// Fold one decomposed pair into the entry list of its key: into the key's
/// existing merge tree, or into a fresh tree appended at the end.
pub open spec fn bucket_add(s: Seq<EntryV>, key: KeyV, p: PairV) -> Seq<EntryV> {
    let j = entry_index(s, key);
    if j >= 0 {
        s.update(j, (s[j].0, group_insert(s[j].1, p.0, p.1)))
    } else {
        s.push((key, group_insert(Seq::empty(), p.0, p.1)))
    }
}

/// Fold one decomposed pair into the grouping state, choosing the bucket by
/// the pair's category.
pub open spec fn buckets_add(b: BucketsV, key: KeyV, p: PairV) -> BucketsV {
    match category_of_pair(p.0, p.1) {
        Category::Std => BucketsV { std_entries: bucket_add(b.std_entries, key, p), ..b },
        Category::External => BucketsV {
            external_entries: bucket_add(b.external_entries, key, p),
            ..b
        },
        Category::Crate => BucketsV { crate_entries: bucket_add(b.crate_entries, key, p), ..b },
    }
}

/// Fold a run of decomposed pairs into the grouping state, in order.
pub open spec fn buckets_add_pairs(b: BucketsV, key: KeyV, ps: Seq<PairV>) -> BucketsV
    decreases ps.len(),
{
    if ps.len() == 0 {
        b
    } else {
        buckets_add(buckets_add_pairs(b, key, ps.drop_last()), key, ps.last())
    }
}

/// Fold a run of declarations into the grouping state, in order: each
/// declaration's decomposed pairs under the declaration's key.
pub open spec fn buckets_add_items(b: BucketsV, items: Seq<UseItem>) -> BucketsV
    decreases items.len(),
{
    if items.len() == 0 {
        b
    } else {
        buckets_add_pairs(
            buckets_add_items(b, items.drop_last()),
            items.last().key_v(),
            tree_pairs(items.last().tree.deep()),
        )
    }
}

/// Insert one entry into a key-ordered entry list, in front of the first
/// entry whose key does not precede it.
pub open spec fn entry_insert(s: Seq<EntryV>, e: EntryV) -> Seq<EntryV>
    decreases s.len(),
{
    if s.len() == 0 {
        seq![e]
    } else if !key_le(s[0].0, e.0) {
        seq![e] + s
    } else {
        seq![s[0]] + entry_insert(s.subrange(1, s.len() as int), e)
    }
}

/// Order an entry list by its keys, by repeated insertion in input order.
pub open spec fn sort_entries(s: Seq<EntryV>) -> Seq<EntryV>
    decreases s.len(),
{
    if s.len() == 0 {
        Seq::empty()
    } else {
        entry_insert(sort_entries(s.drop_last()), s.last())
    }
}

/// The text of an entry list: one newline-terminated statement per entry.
pub open spec fn entries_text(s: Seq<EntryV>) -> Seq<char>
    decreases s.len(),
{
    if s.len() == 0 {
        Seq::empty()
    } else {
        entries_text(s.drop_last()) + stmt_text(s.last().0, emit_group(s.last().1)) + "\n"@
    }
}

/// The text of one category's block: its statements in key order, followed
/// by a blank line.
pub open spec fn block_text(s: Seq<EntryV>) -> Seq<char> {
    entries_text(sort_entries(s)) + "\n"@
}

/// The whole engine: the text that a run of declarations is rewritten to —
/// the standard-library, external and self-relative blocks, in that order.
pub open spec fn format_text(items: Seq<UseItem>) -> Seq<char> {
    let b = buckets_add_items(empty_buckets(), items);
    block_text(b.std_entries) + block_text(b.external_entries) + block_text(b.crate_entries)
}

/// The grouping state: one entry list per category, each entry an import
/// key with its merge tree.
#[derive(Debug)]
pub struct UseMap {
    pub std_entries: Vec<(UseKey, Tree)>,
    pub external_entries: Vec<(UseKey, Tree)>,
    pub crate_entries: Vec<(UseKey, Tree)>,
}

impl UseMap {
    /// The model of the grouping state.
    pub open spec fn deep(&self) -> BucketsV {
        BucketsV {
            std_entries: entries_deep(self.std_entries@),
            external_entries: entries_deep(self.external_entries@),
            crate_entries: entries_deep(self.crate_entries@),
        }
    }

    /// The empty grouping state.
    pub fn new() -> (m: UseMap)
        ensures
            m.deep() == empty_buckets(),
    {
        let m = UseMap {
            std_entries: Vec::new(),
            external_entries: Vec::new(),
            crate_entries: Vec::new(),
        };
        proof {
            assert(m.deep() =~~= empty_buckets());
        }
        m
    }
}

/// Locate the first entry with the given key.
fn find_entry(v: &Vec<(UseKey, Tree)>, key: &UseKey) -> (r: Option<usize>)
    ensures
        ({
            let j = entry_index(entries_deep(v@), key@);
            match r {
                Some(u) => u < v@.len() && j == u as int && entries_deep(v@)[u as int].0 == key@,
                None => j == -1,
            }
        }),
{
    let ghost sv = entries_deep(v@);
    let len = v.len();
    let mut i: usize = 0;
    while i < len
        invariant
            i <= len,
            len == v@.len(),
            sv == entries_deep(v@),
            entry_index_from(sv, key@, 0) == entry_index_from(sv, key@, i as int),
        decreases len - i,
    {
        let hit = crate::keys::key_eq_exec(&v[i].0, key);
        proof {
            assert(sv[i as int] == (v@[i as int].0@, v@[i as int].1.deep()));
        }
        if hit {
            return Some(i);
        }
        i = i + 1;
    }
    None
}

/// Fold one decomposed pair into one bucket's entry list.
fn bucket_add_exec(v: Vec<(UseKey, Tree)>, key: &UseKey, path: &Vec<String>, leaf: &Name) -> (r:
    Vec<(UseKey, Tree)>)
    ensures
        entries_deep(r@) == bucket_add(entries_deep(v@), key@, (path.deep_view(), leaf@)),
{
    let ghost sv = entries_deep(v@);
    let mut out = v;
    if let Some(j) = find_entry(&out, key) {
        let (k0, t) = out.remove(j);
        let t2 = t.insert(path, leaf);
        out.insert(j, (k0, t2));
        proof {
            crate::tree::lemma_remove_insert(v@, j as int, out@[j as int]);
            assert(entries_deep(out@) =~~= sv.update(
                j as int,
                (sv[j as int].0, group_insert(sv[j as int].1, path.deep_view(), leaf@)),
            ));
        }
        out
    } else {
        let t = Tree::new();
        let t2 = t.insert(path, leaf);
        out.push((key.duplicate(), t2));
        proof {
            assert(entries_deep(out@) =~~= sv.push(
                (key@, group_insert(Seq::empty(), path.deep_view(), leaf@)),
            ));
        }
        out
    }
}

/// Fold one decomposed pair into the grouping state.
fn usemap_add_pair(m: UseMap, key: &UseKey, path: &Vec<String>, leaf: &Name) -> (r: UseMap)
    ensures
        r.deep() == buckets_add(m.deep(), key@, (path.deep_view(), leaf@)),
{
    let cat = pair_category(path, leaf);
    let UseMap { std_entries, external_entries, crate_entries } = m;
    let r = match cat {
        Category::Std => UseMap {
            std_entries: bucket_add_exec(std_entries, key, path, leaf),
            external_entries,
            crate_entries,
        },
        Category::External => UseMap {
            std_entries,
            external_entries: bucket_add_exec(external_entries, key, path, leaf),
            crate_entries,
        },
        Category::Crate => UseMap {
            std_entries,
            external_entries,
            crate_entries: bucket_add_exec(crate_entries, key, path, leaf),
        },
    };
    proof {
        assert(r.deep() =~~= buckets_add(m.deep(), key@, (path.deep_view(), leaf@)));
    }
    r
}

/// Order one bucket's entries by their keys.
#[verifier::loop_isolation(false)]
fn sort_entries_exec(v: Vec<(UseKey, Tree)>) -> (r: Vec<(UseKey, Tree)>)
    ensures
        entries_deep(r@) == sort_entries(entries_deep(v@)),
{
    let ghost sv = entries_deep(v@);
    let mut rest = v;
    let mut out: Vec<(UseKey, Tree)> = Vec::new();
    let mut i: usize = 0;
    let len = rest.len();
    proof {
        assert(entries_deep(out@) =~= Seq::<EntryV>::empty());
        assert(sort_entries(sv.take(0)) =~= Seq::<EntryV>::empty());
    }
    while i < len
        invariant
            i <= len,
            len == sv.len(),
            rest@.len() == len - i,
            forall|k: int| 0 <= k < len - i ==> #[trigger] rest@[k] == v@[k + i],
            entries_deep(out@) == sort_entries(sv.take(i as int)),
        decreases len - i,
    {
        let x = rest.remove(0);
        proof {
            assert(x == v@[i as int]);
            assert((x.0@, x.1.deep()) == sv[i as int]);
        }
        out = entry_insert_exec(out, x);
        proof {
            assert(sv.take(i as int + 1).drop_last() =~= sv.take(i as int));
            assert(sv.take(i as int + 1).last() == sv[i as int]);
        }
        i = i + 1;
    }
    proof {
        assert(sv.take(len as int) =~= sv);
    }
    out
}

/// Insert one entry into a key-ordered entry list.
#[verifier::loop_isolation(false)]
fn entry_insert_exec(s: Vec<(UseKey, Tree)>, x: (UseKey, Tree)) -> (r: Vec<(UseKey, Tree)>)
    ensures
        entries_deep(r@) == entry_insert(entries_deep(s@), (x.0@, x.1.deep())),
{
    let ghost sv = entries_deep(s@);
    let ghost xv = (x.0@, x.1.deep());
    let mut out = s;
    let len = out.len();
    let mut i: usize = 0;
    proof {
        assert(sv.take(0) =~= Seq::<EntryV>::empty());
        assert(sv.skip(0) =~= sv);
        assert(sv.take(0) + entry_insert(sv.skip(0), xv) =~= entry_insert(sv, xv));
    }
    loop
        invariant
            i <= len,
            len == out@.len(),
            out@ == s@,
            entry_insert(sv, xv) == sv.take(i as int) + entry_insert(sv.skip(i as int), xv),
        decreases len - i,
    {
        if i == len {
            proof {
                assert(sv.skip(len as int).len() == 0);
                assert(entry_insert(sv.skip(len as int), xv) =~= seq![xv]);
            }
            out.push(x);
            proof {
                assert(entries_deep(out@) =~~= sv.take(len as int) + seq![xv]);
            }
            return out;
        }
        let le = key_le_exec(&out[i].0, &x.0);
        proof {
            assert(sv.skip(i as int)[0] == sv[i as int]);
            assert(sv[i as int] == (out@[i as int].0@, out@[i as int].1.deep()));
        }
        if !le {
            proof {
                assert(entry_insert(sv.skip(i as int), xv) =~= seq![xv] + sv.skip(i as int));
            }
            out.insert(i, x);
            proof {
                assert(entries_deep(out@) =~~= sv.take(i as int) + (seq![xv] + sv.skip(i as int)));
            }
            return out;
        }
        proof {
            assert(sv.skip(i as int).subrange(1, sv.skip(i as int).len() as int) =~= sv.skip(
                i as int + 1,
            ));
            assert(sv.take(i as int + 1) =~= sv.take(i as int) + seq![sv[i as int]]);
            assert(sv.take(i as int) + (seq![sv[i as int]] + entry_insert(
                sv.skip(i as int + 1),
                xv,
            )) =~= sv.take(i as int + 1) + entry_insert(sv.skip(i as int + 1), xv));
        }
        i = i + 1;
    }
}

/// Render one bucket's block: its statements in key order, each on its own
/// line, followed by a blank line.
#[verifier::loop_isolation(false)]
fn render_block(v: Vec<(UseKey, Tree)>) -> (s: String)
    ensures
        s@ == block_text(entries_deep(v@)),
{
    let ghost sv = entries_deep(v@);
    let sorted = sort_entries_exec(v);
    let ghost ev = sort_entries(sv);
    let mut s = String::new();
    let mut i: usize = 0;
    proof {
        assert(s@ =~= entries_text(ev.take(0)));
    }
    while i < sorted.len()
        invariant
            i <= sorted@.len(),
            ev == entries_deep(sorted@),
            s@ == entries_text(ev.take(i as int)),
        decreases sorted@.len() - i,
    {
        let (key, tree) = &sorted[i];
        let u = tree.serialize();
        let line = render_statement(key, &u);
        s.append(line.as_str());
        s.append("\n");
        proof {
            assert(ev[i as int] == (key@, tree.deep()));
            assert(ev.take(i as int + 1).drop_last() =~= ev.take(i as int));
            assert(ev.take(i as int + 1).last() == ev[i as int]);
            assert(s@ =~= entries_text(ev.take(i as int + 1)));
        }
        i = i + 1;
    }
    s.append("\n");
    proof {
        assert(ev.take(ev.len() as int) =~= ev);
        assert(s@ =~= block_text(sv));
    }
    s
}

/// Rewrite a run of import declarations into their canonical text: each
/// declaration is decomposed into (path, leaf) pairs, the pairs are bucketed
/// by category and import key, each key's pairs are merged into one prefix
/// tree, and the trees are re-serialized in key order, one block per
/// category.
#[verifier::loop_isolation(false)]
pub fn format_uses(items: &Vec<UseItem>) -> (s: String)
    ensures
        s@ == format_text(items@),
{
    let mut m = UseMap::new();
    let mut i: usize = 0;
    proof {
        assert(items@.take(0) =~= Seq::<UseItem>::empty());
    }
    while i < items.len()
        invariant
            i <= items@.len(),
            m.deep() == buckets_add_items(empty_buckets(), items@.take(i as int)),
        decreases items@.len() - i,
    {
        let item = &items[i];
        let key = UseKey { vis: item.vis.duplicate(), leading_colon: item.leading_colon };
        let pairs = walk_use_tree(&item.tree);
        let ghost pv = pairs_view(pairs@);
        let ghost m0 = m.deep();
        let mut j: usize = 0;
        proof {
            assert(pv.take(0) =~= Seq::<PairV>::empty());
        }
        while j < pairs.len()
            invariant
                j <= pairs@.len(),
                pv == pairs_view(pairs@),
                key@ == items@[i as int].key_v(),
                m.deep() == buckets_add_pairs(m0, key@, pv.take(j as int)),
            decreases pairs@.len() - j,
        {
            let (path, leaf) = &pairs[j];
            proof {
                assert(pv[j as int] == (path.deep_view(), leaf@));
            }
            m = usemap_add_pair(m, &key, path, leaf);
            proof {
                assert(pv.take(j as int + 1).drop_last() =~= pv.take(j as int));
                assert(pv.take(j as int + 1).last() == pv[j as int]);
            }
            j = j + 1;
        }
        proof {
            assert(pv.take(pairs@.len() as int) =~= pv);
            assert(items@.take(i as int + 1).drop_last() =~= items@.take(i as int));
            assert(items@.take(i as int + 1).last() == items@[i as int]);
        }
        i = i + 1;
    }
    proof {
        assert(items@.take(items@.len() as int) =~= items@);
    }
    let UseMap { std_entries, external_entries, crate_entries } = m;
    let mut s = render_block(std_entries);
    let b2 = render_block(external_entries);
    let b3 = render_block(crate_entries);
    s.append(b2.as_str());
    s.append(b3.as_str());
    s
}

} // verus!
