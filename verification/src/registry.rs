//! Grouping a repository's raw tag list by scope.
//!
//! Every raw tag is parsed; unparseable tags are silently discarded. The
//! result maps each scope (the unscoped key first, then scope strings in
//! lexicographic order) to its versions in strictly ascending triple
//! order, each with its rendered display string. Two tags with the same
//! scope and triple collapse to one entry, the later one winning.

use crate::chars::{
    clone_opt_string, lemma_scope_lt_order, lemma_scope_lt_trans, opt_str_view, scope_eq_exec,
    scope_lt, scope_lt_exec,
};
use crate::tag::{spec_parse, spec_render, ScopedTag, TagView};
use crate::version::{same_triple, same_triple_exec, triple_lt, triple_lt_exec, SemVer};
use vstd::prelude::*;

verus! {

/// A request for a scope that holds no tags.
#[derive(Debug)]
pub enum ScopeError {
    NoTagsForScope(Option<String>),
}

/// One version of a scope, with the display string of the tag it came from.
#[derive(Debug)]
pub struct TagEntry {
    pub version: SemVer,
    pub display: String,
}

/// Mathematical model of one entry.
pub ghost struct EntryView {
    pub version: crate::version::VersionView,
    pub display: Seq<char>,
}

impl View for TagEntry {
    type V = EntryView;

    open spec fn view(&self) -> EntryView {
        EntryView { version: self.version@, display: self.display@ }
    }
}

/// All versions of one scope, ascending by triple.
#[derive(Debug)]
pub struct ScopeGroup {
    pub scope: Option<String>,
    pub entries: Vec<TagEntry>,
}

/// Mathematical model of one group.
pub ghost struct GroupView {
    pub scope: Option<Seq<char>>,
    pub entries: Seq<EntryView>,
}

/// The entry views of a sequence of entries.
pub open spec fn entries_view(es: Seq<TagEntry>) -> Seq<EntryView> {
    es.map_values(|e: TagEntry| e@)
}

impl View for ScopeGroup {
    type V = GroupView;

    open spec fn view(&self) -> GroupView {
        GroupView { scope: opt_str_view(self.scope), entries: entries_view(self.entries@) }
    }
}

/// The scope-to-versions mapping built from a tag list.
#[derive(Debug)]
pub struct ScopeRegistry {
    pub groups: Vec<ScopeGroup>,
}

impl View for ScopeRegistry {
    type V = Seq<GroupView>;

    open spec fn view(&self) -> Seq<GroupView> {
        self.groups@.map_values(|g: ScopeGroup| g@)
    }
}

/// The entry a parsed tag contributes: its version under its rendering.
pub open spec fn entry_of(t: TagView) -> EntryView {
    EntryView { version: t.version, display: spec_render(t) }
}

/// Insertion of a tag's entry into one group's ascending entry list. An
/// entry with the same triple is replaced (the new tag wins); otherwise
/// the entry takes its ordered place.
pub open spec fn insert_entry(es: Seq<EntryView>, t: TagView) -> Seq<EntryView>
    decreases es.len(),
{
    if es.len() == 0 {
        seq![entry_of(t)]
    } else if same_triple(es[0].version, t.version) {
        seq![entry_of(t)] + es.drop_first()
    } else if triple_lt(t.version, es[0].version) {
        seq![entry_of(t)] + es
    } else {
        seq![es[0]] + insert_entry(es.drop_first(), t)
    }
}

/// Insertion of a parsed tag into the registry: into its scope's group
/// when one exists, else as a new group at the scope's ordered place.
pub open spec fn insert_tag(gs: Seq<GroupView>, t: TagView) -> Seq<GroupView>
    decreases gs.len(),
{
    if gs.len() == 0 {
        seq![GroupView { scope: t.scope, entries: seq![entry_of(t)] }]
    } else if gs[0].scope == t.scope {
        seq![GroupView { scope: gs[0].scope, entries: insert_entry(gs[0].entries, t) }]
            + gs.drop_first()
    } else if scope_lt(t.scope, gs[0].scope) {
        seq![GroupView { scope: t.scope, entries: seq![entry_of(t)] }] + gs
    } else {
        seq![gs[0]] + insert_tag(gs.drop_first(), t)
    }
}

/// The registry a tag list folds to: each tag parsed in turn, parse
/// failures dropped.
pub open spec fn spec_group(tags: Seq<Seq<char>>) -> Seq<GroupView>
    decreases tags.len(),
{
    if tags.len() == 0 {
        Seq::<GroupView>::empty()
    } else {
        let rest = spec_group(tags.drop_last());
        match spec_parse(tags.last()) {
            Option::Some(t) => insert_tag(rest, t),
            Option::None => rest,
        }
    }
}

/// Entries strictly ascending by triple.
pub open spec fn entries_sorted(es: Seq<EntryView>) -> bool {
    forall|p: int, q: int|
        0 <= p < q < es.len() ==> triple_lt(#[trigger] es[p].version, #[trigger] es[q].version)
}

/// A well-formed registry: groups strictly ascending by scope, each group
/// non-empty with strictly ascending entries.
pub open spec fn registry_wf(gs: Seq<GroupView>) -> bool {
    &&& forall|p: int, q: int|
        0 <= p < q < gs.len() ==> scope_lt(#[trigger] gs[p].scope, #[trigger] gs[q].scope)
    &&& forall|p: int|
        0 <= p < gs.len() ==> entries_sorted(#[trigger] gs[p].entries) && gs[p].entries.len() > 0
}

/// Inserting an entry keeps the list sorted and non-empty, and every
/// element is the new entry or one of the old ones.
proof fn lemma_insert_entry_props(es: Seq<EntryView>, t: TagView)
    requires
        entries_sorted(es),
    ensures
        entries_sorted(insert_entry(es, t)),
        insert_entry(es, t).len() > 0,
        forall|k: int|
            0 <= k < insert_entry(es, t).len()
                ==> #[trigger] insert_entry(es, t)[k] == entry_of(t) || es.contains(
                insert_entry(es, t)[k],
            ),
    decreases es.len(),
{
    let res = insert_entry(es, t);
    if es.len() == 0 {
    } else if same_triple(es[0].version, t.version) {
        assert forall|k: int| 0 <= k < res.len() implies #[trigger] res[k] == entry_of(t)
            || es.contains(res[k]) by {
            if k > 0 {
                assert(res[k] == es[k]);
            }
        }
    } else if triple_lt(t.version, es[0].version) {
        assert forall|k: int| 0 <= k < res.len() implies #[trigger] res[k] == entry_of(t)
            || es.contains(res[k]) by {
            if k > 0 {
                assert(res[k] == es[k - 1]);
            }
        }
    } else {
        let rest = es.drop_first();
        assert(entries_sorted(rest)) by {
            assert forall|p: int, q: int| 0 <= p < q < rest.len() implies triple_lt(
                #[trigger] rest[p].version,
                #[trigger] rest[q].version,
            ) by {
                assert(rest[p] == es[p + 1]);
                assert(rest[q] == es[q + 1]);
            }
        }
        lemma_insert_entry_props(rest, t);
        let sub = insert_entry(rest, t);
        assert(triple_lt(es[0].version, t.version));
        assert forall|k: int| 0 <= k < res.len() implies #[trigger] res[k] == entry_of(t)
            || es.contains(res[k]) by {
            if k > 0 {
                assert(res[k] == sub[k - 1]);
                if sub[k - 1] != entry_of(t) {
                    let j = choose|j: int| 0 <= j < rest.len() && rest[j] == sub[k - 1];
                    assert(es[j + 1] == rest[j]);
                }
            } else {
                assert(res[0] == es[0]);
                assert(es.contains(es[0]));
            }
        }
        assert(entries_sorted(res)) by {
            assert forall|p: int, q: int| 0 <= p < q < res.len() implies triple_lt(
                #[trigger] res[p].version,
                #[trigger] res[q].version,
            ) by {
                if p > 0 {
                    assert(res[p] == sub[p - 1]);
                    assert(res[q] == sub[q - 1]);
                } else {
                    assert(res[0] == es[0]);
                    assert(res[q] == sub[q - 1]);
                    if sub[q - 1] == entry_of(t) {
                    } else {
                        let j = choose|j: int| 0 <= j < rest.len() && rest[j] == sub[q - 1];
                        assert(rest[j] == es[j + 1]);
                        assert(triple_lt(es[0].version, es[j + 1].version));
                    }
                }
            }
        }
    }
}

/// Inserting a tag keeps the registry well-formed, and every group's scope
/// is the tag's or one already present.
proof fn lemma_insert_tag_wf(gs: Seq<GroupView>, t: TagView)
    requires
        registry_wf(gs),
    ensures
        registry_wf(insert_tag(gs, t)),
        forall|k: int|
            0 <= k < insert_tag(gs, t).len()
                ==> #[trigger] insert_tag(gs, t)[k].scope == t.scope || (exists|i: int|
                0 <= i < gs.len() && gs[i].scope == insert_tag(gs, t)[k].scope),
    decreases gs.len(),
{
    let res = insert_tag(gs, t);
    if gs.len() == 0 {
        lemma_insert_entry_props(Seq::<EntryView>::empty(), t);
    } else if gs[0].scope == t.scope {
        lemma_insert_entry_props(gs[0].entries, t);
        assert forall|k: int| 0 <= k < res.len() implies #[trigger] res[k].scope == t.scope || (
        exists|i: int| 0 <= i < gs.len() && gs[i].scope == res[k].scope) by {
            if k > 0 {
                assert(res[k] == gs[k]);
                assert(gs[k].scope == res[k].scope);
            }
        }
        assert forall|p: int, q: int| 0 <= p < q < res.len() implies scope_lt(
            #[trigger] res[p].scope,
            #[trigger] res[q].scope,
        ) by {
            assert(res[q] == gs[q]);
            if p > 0 {
                assert(res[p] == gs[p]);
            } else {
                assert(res[0].scope == gs[0].scope);
            }
        }
    } else if scope_lt(t.scope, gs[0].scope) {
        lemma_insert_entry_props(Seq::<EntryView>::empty(), t);
        assert forall|k: int| 0 <= k < res.len() implies #[trigger] res[k].scope == t.scope || (
        exists|i: int| 0 <= i < gs.len() && gs[i].scope == res[k].scope) by {
            if k > 0 {
                assert(res[k] == gs[k - 1]);
                assert(gs[k - 1].scope == res[k].scope);
            }
        }
        assert forall|p: int, q: int| 0 <= p < q < res.len() implies scope_lt(
            #[trigger] res[p].scope,
            #[trigger] res[q].scope,
        ) by {
            if p > 0 {
                assert(res[p] == gs[p - 1]);
                assert(res[q] == gs[q - 1]);
            } else {
                assert(res[q] == gs[q - 1]);
                if q > 1 {
                    lemma_scope_lt_trans(t.scope, gs[0].scope, gs[q - 1].scope);
                }
            }
        }
    } else {
        let rest = gs.drop_first();
        assert(registry_wf(rest)) by {
            assert forall|p: int, q: int| 0 <= p < q < rest.len() implies scope_lt(
                #[trigger] rest[p].scope,
                #[trigger] rest[q].scope,
            ) by {
                assert(rest[p] == gs[p + 1]);
                assert(rest[q] == gs[q + 1]);
            }
            assert forall|p: int| 0 <= p < rest.len() implies entries_sorted(
                #[trigger] rest[p].entries,
            ) && rest[p].entries.len() > 0 by {
                assert(rest[p] == gs[p + 1]);
            }
        }
        lemma_insert_tag_wf(rest, t);
        let sub = insert_tag(rest, t);
        lemma_scope_lt_order(gs[0].scope, t.scope);
        assert(scope_lt(gs[0].scope, t.scope));
        assert forall|k: int| 0 <= k < res.len() implies #[trigger] res[k].scope == t.scope || (
        exists|i: int| 0 <= i < gs.len() && gs[i].scope == res[k].scope) by {
            if k > 0 {
                assert(res[k] == sub[k - 1]);
                if sub[k - 1].scope != t.scope {
                    let i = choose|i: int|
                        0 <= i < rest.len() && rest[i].scope == sub[k - 1].scope;
                    assert(gs[i + 1] == rest[i]);
                }
            } else {
                assert(res[0] == gs[0]);
            }
        }
        assert forall|p: int, q: int| 0 <= p < q < res.len() implies scope_lt(
            #[trigger] res[p].scope,
            #[trigger] res[q].scope,
        ) by {
            if p > 0 {
                assert(res[p] == sub[p - 1]);
                assert(res[q] == sub[q - 1]);
            } else {
                assert(res[0] == gs[0]);
                assert(res[q] == sub[q - 1]);
                if sub[q - 1].scope == t.scope {
                } else {
                    let i = choose|i: int|
                        0 <= i < rest.len() && rest[i].scope == sub[q - 1].scope;
                    assert(rest[i] == gs[i + 1]);
                    assert(scope_lt(gs[0].scope, gs[i + 1].scope));
                }
            }
        }
        assert forall|p: int| 0 <= p < res.len() implies entries_sorted(#[trigger] res[p].entries)
            && res[p].entries.len() > 0 by {
            if p > 0 {
                assert(res[p] == sub[p - 1]);
            } else {
                assert(res[0] == gs[0]);
            }
        }
    }
}

/// The registry a tag list folds to is well-formed.
pub proof fn lemma_spec_group_wf(tags: Seq<Seq<char>>)
    ensures
        registry_wf(spec_group(tags)),
    decreases tags.len(),
{
    if tags.len() > 0 {
        lemma_spec_group_wf(tags.drop_last());
        match spec_parse(tags.last()) {
            Option::Some(t) => {
                lemma_insert_tag_wf(spec_group(tags.drop_last()), t);
            }
            Option::None => {}
        }
    }
}

/// Scanning past a smaller entry commutes with the insertion.
proof fn lemma_insert_entry_step(es: Seq<EntryView>, t: TagView, j: int)
    requires
        0 <= j < es.len(),
        triple_lt(es[j].version, t.version),
    ensures
        es.take(j) + insert_entry(es.skip(j), t) == es.take(j + 1) + insert_entry(
            es.skip(j + 1),
            t,
        ),
{
    let s = es.skip(j);
    assert(s[0] == es[j]);
    assert(s.drop_first() =~= es.skip(j + 1));
    assert(insert_entry(s, t) == seq![es[j]] + insert_entry(es.skip(j + 1), t));
    assert(es.take(j) + (seq![es[j]] + insert_entry(es.skip(j + 1), t)) =~= es.take(j + 1)
        + insert_entry(es.skip(j + 1), t));
}

/// Scanning past a group with a smaller scope commutes with the insertion.
proof fn lemma_insert_tag_step(gs: Seq<GroupView>, t: TagView, i: int)
    requires
        0 <= i < gs.len(),
        scope_lt(gs[i].scope, t.scope),
    ensures
        gs.take(i) + insert_tag(gs.skip(i), t) == gs.take(i + 1) + insert_tag(gs.skip(i + 1), t),
{
    lemma_scope_lt_order(gs[i].scope, t.scope);
    lemma_scope_lt_order(t.scope, gs[i].scope);
    let s = gs.skip(i);
    assert(s[0] == gs[i]);
    assert(s.drop_first() =~= gs.skip(i + 1));
    assert(insert_tag(s, t) == seq![gs[i]] + insert_tag(gs.skip(i + 1), t));
    assert(gs.take(i) + (seq![gs[i]] + insert_tag(gs.skip(i + 1), t)) =~= gs.take(i + 1)
        + insert_tag(gs.skip(i + 1), t));
}

/// Places a tag's entry in one group's ascending entry list.
fn insert_entry_exec(es: &mut Vec<TagEntry>, entry: TagEntry, Ghost(t): Ghost<TagView>)
    requires
        entry@ == entry_of(t),
    ensures
        entries_view(final(es)@) == insert_entry(entries_view(old(es)@), t),
{
    let ghost evs = entries_view(es@);
    proof {
        assert(evs.take(0) =~= Seq::<EntryView>::empty());
        assert(evs.skip(0) =~= evs);
        assert(insert_entry(evs, t) == evs.take(0) + insert_entry(evs.skip(0), t));
    }
    let mut j: usize = 0;
    loop
        invariant
            j <= es.len(),
            entries_view(es@) == evs,
            es@.len() == evs.len(),
            entry@ == entry_of(t),
            insert_entry(evs, t) == evs.take(j as int) + insert_entry(evs.skip(j as int), t),
        ensures
            j <= es.len(),
            entries_view(es@) == evs,
            es@.len() == evs.len(),
            entry@ == entry_of(t),
            insert_entry(evs, t) == evs.take(j as int) + insert_entry(evs.skip(j as int), t),
            j as int == evs.len() || !triple_lt(evs[j as int].version, t.version),
        decreases es.len() - j,
    {
        if j == es.len() {
            break;
        }
        proof {
            assert(evs[j as int] == es@[j as int]@);
        }
        if !triple_lt_exec(&es[j].version, &entry.version) {
            break;
        }
        proof {
            lemma_insert_entry_step(evs, t, j as int);
        }
        j = j + 1;
    }
    if j < es.len() {
        proof {
            assert(evs[j as int] == es@[j as int]@);
            assert(evs.skip(j as int)[0] == evs[j as int]);
        }
        if same_triple_exec(&es[j].version, &entry.version) {
            es.remove(j);
            es.insert(j, entry);
            proof {
                assert(evs.skip(j as int).drop_first() =~= evs.skip(j as int + 1));
                assert(entries_view(es@) =~= evs.take(j as int) + (seq![entry_of(t)] + evs.skip(
                    j as int + 1,
                )));
            }
        } else {
            es.insert(j, entry);
            proof {
                assert(entries_view(es@) =~= evs.take(j as int) + (seq![entry_of(t)] + evs.skip(
                    j as int,
                )));
            }
        }
    } else {
        es.push(entry);
        proof {
            assert(evs.skip(j as int) =~= Seq::<EntryView>::empty());
            assert(evs.take(j as int) =~= evs);
            assert(entries_view(es@) =~= evs.take(j as int) + insert_entry(
                evs.skip(j as int),
                t,
            ));
        }
    }
}

impl ScopeRegistry {
    /// An empty registry.
    pub fn new() -> (r: ScopeRegistry)
        ensures
            r@ == Seq::<GroupView>::empty(),
    {
        let r = ScopeRegistry { groups: Vec::new() };
        proof {
            assert(r@ =~= Seq::<GroupView>::empty());
        }
        r
    }

    /// Places one parsed tag in the registry, under its scope, at its
    /// version's ordered place; an entry with the same triple is replaced.
    pub fn insert(&mut self, tag: &ScopedTag)
        requires
            tag@.wf(),
        ensures
            final(self)@ == insert_tag(old(self)@, tag@),
    {
        let display = tag.render();
        let entry = TagEntry { version: tag.version.duplicate(), display };
        let ghost gs = self@;
        proof {
            assert(entry@ == entry_of(tag@));
            assert(gs.take(0) =~= Seq::<GroupView>::empty());
            assert(gs.skip(0) =~= gs);
            assert(insert_tag(gs, tag@) == gs.take(0) + insert_tag(gs.skip(0), tag@));
        }
        let mut i: usize = 0;
        loop
            invariant
                i <= self.groups.len(),
                self@ == gs,
                self.groups@.len() == gs.len(),
                entry@ == entry_of(tag@),
                insert_tag(gs, tag@) == gs.take(i as int) + insert_tag(gs.skip(i as int), tag@),
            ensures
                i <= self.groups.len(),
                self@ == gs,
                self.groups@.len() == gs.len(),
                entry@ == entry_of(tag@),
                insert_tag(gs, tag@) == gs.take(i as int) + insert_tag(gs.skip(i as int), tag@),
                i as int == gs.len() || !scope_lt(gs[i as int].scope, tag@.scope),
            decreases self.groups.len() - i,
        {
            if i == self.groups.len() {
                break;
            }
            proof {
                assert(gs[i as int] == self.groups@[i as int]@);
            }
            if !scope_lt_exec(&self.groups[i].scope, &tag.scope) {
                break;
            }
            proof {
                lemma_insert_tag_step(gs, tag@, i as int);
            }
            i = i + 1;
        }
        if i < self.groups.len() {
            proof {
                assert(gs[i as int] == self.groups@[i as int]@);
                assert(gs.skip(i as int)[0] == gs[i as int]);
            }
            if scope_eq_exec(&self.groups[i].scope, &tag.scope) {
                let mut g = self.groups.remove(i);
                insert_entry_exec(&mut g.entries, entry, Ghost(tag@));
                self.groups.insert(i, g);
                proof {
                    assert(gs.skip(i as int).drop_first() =~= gs.skip(i as int + 1));
                    assert(self@ =~= gs.take(i as int) + (seq![
                        GroupView {
                            scope: gs[i as int].scope,
                            entries: insert_entry(gs[i as int].entries, tag@),
                        },
                    ] + gs.skip(i as int + 1)));
                }
            } else {
                proof {
                    lemma_scope_lt_order(gs[i as int].scope, tag@.scope);
                }
                let mut es: Vec<TagEntry> = Vec::new();
                es.push(entry);
                let g = ScopeGroup { scope: clone_opt_string(&tag.scope), entries: es };
                self.groups.insert(i, g);
                proof {
                    assert(entries_view(g.entries@) =~= seq![entry_of(tag@)]);
                    assert(self@ =~= gs.take(i as int) + (seq![
                        GroupView { scope: tag@.scope, entries: seq![entry_of(tag@)] },
                    ] + gs.skip(i as int)));
                }
            }
        } else {
            let mut es: Vec<TagEntry> = Vec::new();
            es.push(entry);
            let g = ScopeGroup { scope: clone_opt_string(&tag.scope), entries: es };
            self.groups.insert(i, g);
            proof {
                assert(gs.skip(i as int) =~= Seq::<GroupView>::empty());
                assert(entries_view(g.entries@) =~= seq![entry_of(tag@)]);
                assert(self@ =~= gs.take(i as int) + insert_tag(gs.skip(i as int), tag@));
            }
        }
    }
}

/// Groups a raw tag list by scope: parses every tag, drops the
/// unparseable, and returns the well-formed registry the list folds to.
pub fn group_tags_by_scope(tags: &Vec<String>) -> (r: ScopeRegistry)
    ensures
        r@ == spec_group(tags.deep_view()),
        registry_wf(r@),
{
    let mut reg = ScopeRegistry::new();
    let ghost dv = tags.deep_view();
    proof {
        assert(dv.len() == tags@.len());
        assert(dv.take(0) =~= Seq::<Seq<char>>::empty());
        assert(reg@ =~= spec_group(dv.take(0)));
    }
    let mut k: usize = 0;
    while k < tags.len()
        invariant
            k <= tags.len(),
            dv == tags.deep_view(),
            dv.len() == tags@.len(),
            reg@ == spec_group(dv.take(k as int)),
        decreases tags.len() - k,
    {
        proof {
            assert(dv[k as int] == tags@[k as int]@);
        }
        match ScopedTag::parse(tags[k].as_str()) {
            Ok(t) => {
                reg.insert(&t);
            }
            Err(_) => {}
        }
        proof {
            assert(dv.take(k as int + 1).drop_last() =~= dv.take(k as int));
            assert(dv.take(k as int + 1).last() == dv[k as int]);
        }
        k = k + 1;
    }
    proof {
        assert(dv.take(tags@.len() as int) =~= dv);
        lemma_spec_group_wf(dv);
    }
    reg
}

/// Some entry of `es` carries the triple `(mj, mi, pa)`.
pub open spec fn entries_have(es: Seq<EntryView>, mj: int, mi: int, pa: int) -> bool {
    exists|j: int|
        0 <= j < es.len() && (#[trigger] es[j]).version.major == mj && es[j].version.minor == mi
            && es[j].version.patch == pa
}

/// Some group of `gs` keyed by `sc` carries the triple `(mj, mi, pa)`.
pub open spec fn reg_has(
    gs: Seq<GroupView>,
    sc: Option<Seq<char>>,
    mj: int,
    mi: int,
    pa: int,
) -> bool {
    exists|i: int|
        0 <= i < gs.len() && (#[trigger] gs[i]).scope == sc && entries_have(
            gs[i].entries,
            mj,
            mi,
            pa,
        )
}

/// Some raw tag of `tags` parses to scope `sc` and triple `(mj, mi, pa)`.
pub open spec fn some_tag_gives(
    tags: Seq<Seq<char>>,
    sc: Option<Seq<char>>,
    mj: int,
    mi: int,
    pa: int,
) -> bool {
    exists|k: int|
        0 <= k < tags.len() && (spec_parse(#[trigger] tags[k]) matches Some(t) && t.scope == sc
            && t.version.major == mj && t.version.minor == mi && t.version.patch == pa)
}

/// Inserting an entry adds exactly the tag's triple to what the list holds.
proof fn lemma_insert_entry_have(es: Seq<EntryView>, t: TagView, mj: int, mi: int, pa: int)
    ensures
        entries_have(insert_entry(es, t), mj, mi, pa) <==> entries_have(es, mj, mi, pa) || (
        t.version.major == mj && t.version.minor == mi && t.version.patch == pa),
    decreases es.len(),
{
    let res = insert_entry(es, t);
    if es.len() == 0 {
        assert(res[0] == entry_of(t));
        if entries_have(res, mj, mi, pa) {
            let j = choose|j: int|
                0 <= j < res.len() && (#[trigger] res[j]).version.major == mj
                    && res[j].version.minor == mi && res[j].version.patch == pa;
            assert(j == 0);
        }
    } else if same_triple(es[0].version, t.version) {
        assert(res == seq![entry_of(t)] + es.drop_first());
        if entries_have(res, mj, mi, pa) {
            let j = choose|j: int|
                0 <= j < res.len() && (#[trigger] res[j]).version.major == mj
                    && res[j].version.minor == mi && res[j].version.patch == pa;
            if j > 0 {
                assert(res[j] == es[j]);
            }
        }
        if entries_have(es, mj, mi, pa) {
            let j = choose|j: int|
                0 <= j < es.len() && (#[trigger] es[j]).version.major == mj && es[j].version.minor
                    == mi && es[j].version.patch == pa;
            if j == 0 {
                assert(res[0] == entry_of(t));
            } else {
                assert(res[j] == es[j]);
            }
        }
        if t.version.major == mj && t.version.minor == mi && t.version.patch == pa {
            assert(res[0] == entry_of(t));
        }
    } else if triple_lt(t.version, es[0].version) {
        assert(res == seq![entry_of(t)] + es);
        if entries_have(res, mj, mi, pa) {
            let j = choose|j: int|
                0 <= j < res.len() && (#[trigger] res[j]).version.major == mj
                    && res[j].version.minor == mi && res[j].version.patch == pa;
            if j > 0 {
                assert(res[j] == es[j - 1]);
            }
        }
        if entries_have(es, mj, mi, pa) {
            let j = choose|j: int|
                0 <= j < es.len() && (#[trigger] es[j]).version.major == mj && es[j].version.minor
                    == mi && es[j].version.patch == pa;
            assert(res[j + 1] == es[j]);
        }
        if t.version.major == mj && t.version.minor == mi && t.version.patch == pa {
            assert(res[0] == entry_of(t));
        }
    } else {
        let rest = es.drop_first();
        lemma_insert_entry_have(rest, t, mj, mi, pa);
        let sub = insert_entry(rest, t);
        assert(res == seq![es[0]] + sub);
        if entries_have(res, mj, mi, pa) {
            let j = choose|j: int|
                0 <= j < res.len() && (#[trigger] res[j]).version.major == mj
                    && res[j].version.minor == mi && res[j].version.patch == pa;
            if j == 0 {
                assert(res[0] == es[0]);
            } else {
                assert(res[j] == sub[j - 1]);
                if entries_have(rest, mj, mi, pa) {
                    let j2 = choose|j2: int|
                        0 <= j2 < rest.len() && (#[trigger] rest[j2]).version.major == mj
                            && rest[j2].version.minor == mi && rest[j2].version.patch == pa;
                    assert(es[j2 + 1] == rest[j2]);
                }
            }
        }
        if entries_have(es, mj, mi, pa) {
            let j = choose|j: int|
                0 <= j < es.len() && (#[trigger] es[j]).version.major == mj && es[j].version.minor
                    == mi && es[j].version.patch == pa;
            if j == 0 {
                assert(res[0] == es[0]);
            } else {
                assert(rest[j - 1] == es[j]);
                assert(entries_have(rest, mj, mi, pa));
                let j3 = choose|j3: int|
                    0 <= j3 < sub.len() && (#[trigger] sub[j3]).version.major == mj
                        && sub[j3].version.minor == mi && sub[j3].version.patch == pa;
                assert(res[j3 + 1] == sub[j3]);
            }
        }
        if t.version.major == mj && t.version.minor == mi && t.version.patch == pa {
            let j3 = choose|j3: int|
                0 <= j3 < sub.len() && (#[trigger] sub[j3]).version.major == mj
                    && sub[j3].version.minor == mi && sub[j3].version.patch == pa;
            assert(res[j3 + 1] == sub[j3]);
        }
    }
}

/// Inserting a tag adds exactly its (scope, triple) key to the registry.
proof fn lemma_insert_tag_have(
    gs: Seq<GroupView>,
    t: TagView,
    sc: Option<Seq<char>>,
    mj: int,
    mi: int,
    pa: int,
)
    ensures
        reg_has(insert_tag(gs, t), sc, mj, mi, pa) <==> reg_has(gs, sc, mj, mi, pa) || (t.scope
            == sc && t.version.major == mj && t.version.minor == mi && t.version.patch == pa),
    decreases gs.len(),
{
    let res = insert_tag(gs, t);
    let tm = t.scope == sc && t.version.major == mj && t.version.minor == mi && t.version.patch
        == pa;
    if gs.len() == 0 {
        lemma_insert_entry_have(Seq::<EntryView>::empty(), t, mj, mi, pa);
        assert(res[0] == (GroupView { scope: t.scope, entries: seq![entry_of(t)] }));
        if reg_has(res, sc, mj, mi, pa) {
            let i = choose|i: int|
                0 <= i < res.len() && (#[trigger] res[i]).scope == sc && entries_have(
                    res[i].entries,
                    mj,
                    mi,
                    pa,
                );
            assert(i == 0);
        }
    } else if gs[0].scope == t.scope {
        lemma_insert_entry_have(gs[0].entries, t, mj, mi, pa);
        let merged = GroupView { scope: gs[0].scope, entries: insert_entry(gs[0].entries, t) };
        assert(res == seq![merged] + gs.drop_first());
        if reg_has(res, sc, mj, mi, pa) {
            let i = choose|i: int|
                0 <= i < res.len() && (#[trigger] res[i]).scope == sc && entries_have(
                    res[i].entries,
                    mj,
                    mi,
                    pa,
                );
            if i > 0 {
                assert(res[i] == gs[i]);
            } else {
                assert(res[0] == merged);
            }
        }
        if reg_has(gs, sc, mj, mi, pa) {
            let i = choose|i: int|
                0 <= i < gs.len() && (#[trigger] gs[i]).scope == sc && entries_have(
                    gs[i].entries,
                    mj,
                    mi,
                    pa,
                );
            if i == 0 {
                assert(res[0] == merged);
            } else {
                assert(res[i] == gs[i]);
            }
        }
        if tm {
            assert(res[0] == merged);
        }
    } else if scope_lt(t.scope, gs[0].scope) {
        lemma_insert_entry_have(Seq::<EntryView>::empty(), t, mj, mi, pa);
        let fresh = GroupView { scope: t.scope, entries: seq![entry_of(t)] };
        assert(res == seq![fresh] + gs);
        if reg_has(res, sc, mj, mi, pa) {
            let i = choose|i: int|
                0 <= i < res.len() && (#[trigger] res[i]).scope == sc && entries_have(
                    res[i].entries,
                    mj,
                    mi,
                    pa,
                );
            if i > 0 {
                assert(res[i] == gs[i - 1]);
            } else {
                assert(res[0] == fresh);
            }
        }
        if reg_has(gs, sc, mj, mi, pa) {
            let i = choose|i: int|
                0 <= i < gs.len() && (#[trigger] gs[i]).scope == sc && entries_have(
                    gs[i].entries,
                    mj,
                    mi,
                    pa,
                );
            assert(res[i + 1] == gs[i]);
        }
        if tm {
            assert(res[0] == fresh);
        }
    } else {
        let rest = gs.drop_first();
        lemma_insert_tag_have(rest, t, sc, mj, mi, pa);
        let sub = insert_tag(rest, t);
        assert(res == seq![gs[0]] + sub);
        if reg_has(res, sc, mj, mi, pa) {
            let i = choose|i: int|
                0 <= i < res.len() && (#[trigger] res[i]).scope == sc && entries_have(
                    res[i].entries,
                    mj,
                    mi,
                    pa,
                );
            if i == 0 {
                assert(res[0] == gs[0]);
            } else {
                assert(res[i] == sub[i - 1]);
                if reg_has(rest, sc, mj, mi, pa) {
                    let i2 = choose|i2: int|
                        0 <= i2 < rest.len() && (#[trigger] rest[i2]).scope == sc && entries_have(
                            rest[i2].entries,
                            mj,
                            mi,
                            pa,
                        );
                    assert(gs[i2 + 1] == rest[i2]);
                }
            }
        }
        if reg_has(gs, sc, mj, mi, pa) {
            let i = choose|i: int|
                0 <= i < gs.len() && (#[trigger] gs[i]).scope == sc && entries_have(
                    gs[i].entries,
                    mj,
                    mi,
                    pa,
                );
            if i == 0 {
                assert(res[0] == gs[0]);
            } else {
                assert(rest[i - 1] == gs[i]);
                assert(reg_has(rest, sc, mj, mi, pa));
                let i3 = choose|i3: int|
                    0 <= i3 < sub.len() && (#[trigger] sub[i3]).scope == sc && entries_have(
                        sub[i3].entries,
                        mj,
                        mi,
                        pa,
                    );
                assert(res[i3 + 1] == sub[i3]);
            }
        }
        if tm {
            let i3 = choose|i3: int|
                0 <= i3 < sub.len() && (#[trigger] sub[i3]).scope == sc && entries_have(
                    sub[i3].entries,
                    mj,
                    mi,
                    pa,
                );
            assert(res[i3 + 1] == sub[i3]);
        }
    }
}

/// A (scope, triple) key stands in the grouped registry exactly when some
/// raw tag of the list parses to it.
pub proof fn lemma_group_membership(
    tags: Seq<Seq<char>>,
    sc: Option<Seq<char>>,
    mj: int,
    mi: int,
    pa: int,
)
    ensures
        reg_has(spec_group(tags), sc, mj, mi, pa) <==> some_tag_gives(tags, sc, mj, mi, pa),
    decreases tags.len(),
{
    if tags.len() == 0 {
    } else {
        let rest = tags.drop_last();
        lemma_group_membership(rest, sc, mj, mi, pa);
        match spec_parse(tags.last()) {
            Option::Some(t) => {
                lemma_insert_tag_have(spec_group(rest), t, sc, mj, mi, pa);
            }
            Option::None => {}
        }
        if some_tag_gives(rest, sc, mj, mi, pa) {
            let k = choose|k: int|
                0 <= k < rest.len() && (spec_parse(#[trigger] rest[k]) matches Some(t) && t.scope
                    == sc && t.version.major == mj && t.version.minor == mi && t.version.patch
                    == pa);
            assert(tags[k] == rest[k]);
        }
        if some_tag_gives(tags, sc, mj, mi, pa) {
            let k = choose|k: int|
                0 <= k < tags.len() && (spec_parse(#[trigger] tags[k]) matches Some(t) && t.scope
                    == sc && t.version.major == mj && t.version.minor == mi && t.version.patch
                    == pa);
            if k < tags.len() - 1 {
                assert(rest[k] == tags[k]);
            } else {
                assert(tags[k] == tags.last());
            }
        }
    }
}

/// Grouping ignores the order of the raw tag list: two lists holding the
/// same tags yield registries with exactly the same scopes and version
/// triples. (Among tags that collide on one (scope, triple) key, only the
/// choice of surviving display string depends on the order: the later tag
/// wins.)
pub proof fn lemma_group_order_independent(tags1: Seq<Seq<char>>, tags2: Seq<Seq<char>>)
    requires
        tags1.to_multiset() == tags2.to_multiset(),
    ensures
        forall|sc: Option<Seq<char>>, mj: int, mi: int, pa: int|
            reg_has(spec_group(tags1), sc, mj, mi, pa) <==> reg_has(
                spec_group(tags2),
                sc,
                mj,
                mi,
                pa,
            ),
{
    tags1.to_multiset_ensures();
    tags2.to_multiset_ensures();
    assert forall|sc: Option<Seq<char>>, mj: int, mi: int, pa: int|
        reg_has(spec_group(tags1), sc, mj, mi, pa) <==> reg_has(
            spec_group(tags2),
            sc,
            mj,
            mi,
            pa,
        ) by {
        lemma_group_membership(tags1, sc, mj, mi, pa);
        lemma_group_membership(tags2, sc, mj, mi, pa);
        if some_tag_gives(tags1, sc, mj, mi, pa) {
            let k = choose|k: int|
                0 <= k < tags1.len() && (spec_parse(#[trigger] tags1[k]) matches Some(t) && t.scope
                    == sc && t.version.major == mj && t.version.minor == mi && t.version.patch
                    == pa);
            assert(tags1.contains(tags1[k]));
            assert(tags1.to_multiset().count(tags1[k]) > 0);
            assert(tags2.to_multiset().count(tags1[k]) > 0);
            assert(tags2.contains(tags1[k]));
            let k2 = choose|k2: int| 0 <= k2 < tags2.len() && tags2[k2] == tags1[k];
            assert(spec_parse(tags2[k2]) == spec_parse(tags1[k]));
        }
        if some_tag_gives(tags2, sc, mj, mi, pa) {
            let k = choose|k: int|
                0 <= k < tags2.len() && (spec_parse(#[trigger] tags2[k]) matches Some(t) && t.scope
                    == sc && t.version.major == mj && t.version.minor == mi && t.version.patch
                    == pa);
            assert(tags2.contains(tags2[k]));
            assert(tags2.to_multiset().count(tags2[k]) > 0);
            assert(tags1.to_multiset().count(tags2[k]) > 0);
            assert(tags1.contains(tags2[k]));
            let k2 = choose|k2: int| 0 <= k2 < tags1.len() && tags1[k2] == tags2[k];
            assert(spec_parse(tags1[k2]) == spec_parse(tags2[k]));
        }
    }
}

/// Equal structure up to display strings: the same scopes in the same
/// order, and for each scope the same version triples in the same order.
pub open spec fn same_shape(gs1: Seq<GroupView>, gs2: Seq<GroupView>) -> bool {
    &&& gs1.len() == gs2.len()
    &&& forall|i: int|
        0 <= i < gs1.len() ==> (#[trigger] gs1[i]).scope == gs2[i].scope && gs1[i].entries.len()
            == gs2[i].entries.len()
    &&& forall|i: int, j: int|
        0 <= i < gs1.len() && 0 <= j < gs1[i].entries.len() ==> same_triple(
            (#[trigger] gs1[i].entries[j]).version,
            gs2[i].entries[j].version,
        )
}

/// Two strictly ascending entry lists holding the same triples agree
/// position by position.
proof fn lemma_sorted_entries_same_triples(es1: Seq<EntryView>, es2: Seq<EntryView>)
    requires
        entries_sorted(es1),
        entries_sorted(es2),
        forall|mj: int, mi: int, pa: int|
            #[trigger] entries_have(es1, mj, mi, pa) <==> entries_have(es2, mj, mi, pa),
    ensures
        es1.len() == es2.len(),
        forall|j: int| 0 <= j < es1.len() ==> same_triple(
            (#[trigger] es1[j]).version,
            es2[j].version,
        ),
    decreases es1.len(),
{
    if es1.len() == 0 {
        if es2.len() > 0 {
            let v = es2[0].version;
            assert(entries_have(es2, v.major, v.minor, v.patch));
            assert(entries_have(es1, v.major, v.minor, v.patch));
            assert(false);
        }
    } else if es2.len() == 0 {
        let v = es1[0].version;
        assert(entries_have(es1, v.major, v.minor, v.patch));
        assert(entries_have(es2, v.major, v.minor, v.patch));
        assert(false);
    } else {
        let v1 = es1[0].version;
        let v2 = es2[0].version;
        assert(entries_have(es1, v1.major, v1.minor, v1.patch));
        assert(entries_have(es2, v1.major, v1.minor, v1.patch));
        let j = choose|j: int|
            0 <= j < es2.len() && (#[trigger] es2[j]).version.major == v1.major
                && es2[j].version.minor == v1.minor && es2[j].version.patch == v1.patch;
        assert(entries_have(es2, v2.major, v2.minor, v2.patch));
        assert(entries_have(es1, v2.major, v2.minor, v2.patch));
        let j2 = choose|j2: int|
            0 <= j2 < es1.len() && (#[trigger] es1[j2]).version.major == v2.major
                && es1[j2].version.minor == v2.minor && es1[j2].version.patch == v2.patch;
        if !same_triple(v1, v2) {
            assert(j > 0);
            assert(j2 > 0);
            assert(triple_lt(es2[0].version, es2[j].version));
            assert(triple_lt(es1[0].version, es1[j2].version));
            assert(false);
        }
        let t1 = es1.drop_first();
        let t2 = es2.drop_first();
        assert forall|p: int, q: int| 0 <= p < q < t1.len() implies triple_lt(
            (#[trigger] t1[p]).version,
            (#[trigger] t1[q]).version,
        ) by {
            assert(t1[p] == es1[p + 1]);
            assert(t1[q] == es1[q + 1]);
        }
        assert forall|p: int, q: int| 0 <= p < q < t2.len() implies triple_lt(
            (#[trigger] t2[p]).version,
            (#[trigger] t2[q]).version,
        ) by {
            assert(t2[p] == es2[p + 1]);
            assert(t2[q] == es2[q + 1]);
        }
        assert forall|mj: int, mi: int, pa: int| #[trigger] entries_have(t1, mj, mi, pa)
            <==> entries_have(t2, mj, mi, pa) by {
            lemma_tail_entries_have(es1, mj, mi, pa);
            lemma_tail_entries_have(es2, mj, mi, pa);
            assert(entries_have(es1, mj, mi, pa) <==> entries_have(es2, mj, mi, pa));
        }
        lemma_sorted_entries_same_triples(t1, t2);
        assert forall|j3: int| 0 <= j3 < es1.len() implies same_triple(
            (#[trigger] es1[j3]).version,
            es2[j3].version,
        ) by {
            if j3 > 0 {
                assert(es1[j3] == t1[j3 - 1]);
                assert(es2[j3] == t2[j3 - 1]);
            }
        }
    }
}

/// In a strictly ascending list the head's triple occurs nowhere later,
/// so the tail holds exactly the other triples.
proof fn lemma_tail_entries_have(es: Seq<EntryView>, mj: int, mi: int, pa: int)
    requires
        entries_sorted(es),
        es.len() > 0,
    ensures
        entries_have(es.drop_first(), mj, mi, pa) <==> entries_have(es, mj, mi, pa) && !(
        es[0].version.major == mj && es[0].version.minor == mi && es[0].version.patch == pa),
{
    let t = es.drop_first();
    if entries_have(t, mj, mi, pa) {
        let j = choose|j: int|
            0 <= j < t.len() && (#[trigger] t[j]).version.major == mj && t[j].version.minor == mi
                && t[j].version.patch == pa;
        assert(t[j] == es[j + 1]);
        assert(triple_lt(es[0].version, es[j + 1].version));
    }
    if entries_have(es, mj, mi, pa) && !(es[0].version.major == mj && es[0].version.minor == mi
        && es[0].version.patch == pa) {
        let j = choose|j: int|
            0 <= j < es.len() && (#[trigger] es[j]).version.major == mj && es[j].version.minor
                == mi && es[j].version.patch == pa;
        assert(j > 0);
        assert(t[j - 1] == es[j]);
    }
}

/// In a strictly ascending registry the head's scope occurs nowhere later,
/// so the tail holds exactly the other scopes' keys.
proof fn lemma_tail_reg_has(
    gs: Seq<GroupView>,
    sc: Option<Seq<char>>,
    mj: int,
    mi: int,
    pa: int,
)
    requires
        registry_wf(gs),
        gs.len() > 0,
    ensures
        reg_has(gs.drop_first(), sc, mj, mi, pa) <==> reg_has(gs, sc, mj, mi, pa) && !(gs[0].scope
            == sc && entries_have(gs[0].entries, mj, mi, pa)),
{
    let t = gs.drop_first();
    if reg_has(t, sc, mj, mi, pa) {
        let i = choose|i: int|
            0 <= i < t.len() && (#[trigger] t[i]).scope == sc && entries_have(
                t[i].entries,
                mj,
                mi,
                pa,
            );
        assert(t[i] == gs[i + 1]);
        assert(scope_lt(gs[0].scope, gs[i + 1].scope));
        lemma_scope_lt_order(gs[0].scope, gs[i + 1].scope);
    }
    if reg_has(gs, sc, mj, mi, pa) && !(gs[0].scope == sc && entries_have(
        gs[0].entries,
        mj,
        mi,
        pa,
    )) {
        let i = choose|i: int|
            0 <= i < gs.len() && (#[trigger] gs[i]).scope == sc && entries_have(
                gs[i].entries,
                mj,
                mi,
                pa,
            );
        assert(i > 0);
        assert(t[i - 1] == gs[i]);
    }
}

/// Two well-formed registries holding the same (scope, triple) keys have
/// the same shape.
proof fn lemma_sorted_regs_same_shape(gs1: Seq<GroupView>, gs2: Seq<GroupView>)
    requires
        registry_wf(gs1),
        registry_wf(gs2),
        forall|sc: Option<Seq<char>>, mj: int, mi: int, pa: int|
            #[trigger] reg_has(gs1, sc, mj, mi, pa) <==> reg_has(gs2, sc, mj, mi, pa),
    ensures
        same_shape(gs1, gs2),
    decreases gs1.len(),
{
    if gs1.len() == 0 {
        if gs2.len() > 0 {
            let v = gs2[0].entries[0].version;
            assert(entries_have(gs2[0].entries, v.major, v.minor, v.patch));
            assert(reg_has(gs2, gs2[0].scope, v.major, v.minor, v.patch));
            assert(reg_has(gs1, gs2[0].scope, v.major, v.minor, v.patch));
            assert(false);
        }
    } else if gs2.len() == 0 {
        let v = gs1[0].entries[0].version;
        assert(entries_have(gs1[0].entries, v.major, v.minor, v.patch));
        assert(reg_has(gs1, gs1[0].scope, v.major, v.minor, v.patch));
        assert(reg_has(gs2, gs1[0].scope, v.major, v.minor, v.patch));
        assert(false);
    } else {
        // The head scopes agree: each is the least scope of its registry,
        // and both registries hold keys under both head scopes.
        let v1 = gs1[0].entries[0].version;
        assert(entries_have(gs1[0].entries, v1.major, v1.minor, v1.patch));
        assert(reg_has(gs1, gs1[0].scope, v1.major, v1.minor, v1.patch));
        assert(reg_has(gs2, gs1[0].scope, v1.major, v1.minor, v1.patch));
        let i = choose|i: int|
            0 <= i < gs2.len() && (#[trigger] gs2[i]).scope == gs1[0].scope && entries_have(
                gs2[i].entries,
                v1.major,
                v1.minor,
                v1.patch,
            );
        let v2 = gs2[0].entries[0].version;
        assert(entries_have(gs2[0].entries, v2.major, v2.minor, v2.patch));
        assert(reg_has(gs2, gs2[0].scope, v2.major, v2.minor, v2.patch));
        assert(reg_has(gs1, gs2[0].scope, v2.major, v2.minor, v2.patch));
        let i2 = choose|i2: int|
            0 <= i2 < gs1.len() && (#[trigger] gs1[i2]).scope == gs2[0].scope && entries_have(
                gs1[i2].entries,
                v2.major,
                v2.minor,
                v2.patch,
            );
        if gs1[0].scope != gs2[0].scope {
            assert(i > 0);
            assert(i2 > 0);
            assert(scope_lt(gs2[0].scope, gs2[i].scope));
            assert(scope_lt(gs1[0].scope, gs1[i2].scope));
            lemma_scope_lt_order(gs1[0].scope, gs2[0].scope);
            assert(false);
        }
        // The head groups hold the same triples: under the head scope,
        // each registry's keys are exactly its head group's.
        assert forall|mj: int, mi: int, pa: int| #[trigger] entries_have(
            gs1[0].entries,
            mj,
            mi,
            pa,
        ) <==> entries_have(gs2[0].entries, mj, mi, pa) by {
            lemma_head_keys(gs1, mj, mi, pa);
            lemma_head_keys(gs2, mj, mi, pa);
            assert(reg_has(gs1, gs1[0].scope, mj, mi, pa) <==> reg_has(
                gs2,
                gs1[0].scope,
                mj,
                mi,
                pa,
            ));
        }
        lemma_sorted_entries_same_triples(gs1[0].entries, gs2[0].entries);
        // The tails hold the same keys.
        let t1 = gs1.drop_first();
        let t2 = gs2.drop_first();
        assert(registry_wf(t1)) by {
            lemma_tail_wf(gs1);
        }
        assert(registry_wf(t2)) by {
            lemma_tail_wf(gs2);
        }
        assert forall|sc: Option<Seq<char>>, mj: int, mi: int, pa: int| #[trigger] reg_has(
            t1,
            sc,
            mj,
            mi,
            pa,
        ) <==> reg_has(t2, sc, mj, mi, pa) by {
            lemma_tail_reg_has(gs1, sc, mj, mi, pa);
            lemma_tail_reg_has(gs2, sc, mj, mi, pa);
            assert(reg_has(gs1, sc, mj, mi, pa) <==> reg_has(gs2, sc, mj, mi, pa));
            lemma_head_keys(gs1, mj, mi, pa);
            lemma_head_keys(gs2, mj, mi, pa);
        }
        lemma_sorted_regs_same_shape(t1, t2);
        assert forall|k: int| 0 <= k < gs1.len() implies (#[trigger] gs1[k]).scope == gs2[k].scope
            && gs1[k].entries.len() == gs2[k].entries.len() by {
            if k > 0 {
                assert(gs1[k] == t1[k - 1]);
                assert(gs2[k] == t2[k - 1]);
            }
        }
        assert forall|k: int, j: int|
            0 <= k < gs1.len() && 0 <= j < gs1[k].entries.len() implies same_triple(
            (#[trigger] gs1[k].entries[j]).version,
            gs2[k].entries[j].version,
        ) by {
            if k > 0 {
                assert(gs1[k] == t1[k - 1]);
                assert(gs2[k] == t2[k - 1]);
            }
        }
    }
}

/// Under its head's scope a well-formed registry holds exactly the head
/// group's triples.
proof fn lemma_head_keys(gs: Seq<GroupView>, mj: int, mi: int, pa: int)
    requires
        registry_wf(gs),
        gs.len() > 0,
    ensures
        reg_has(gs, gs[0].scope, mj, mi, pa) <==> entries_have(gs[0].entries, mj, mi, pa),
{
    if reg_has(gs, gs[0].scope, mj, mi, pa) {
        let i = choose|i: int|
            0 <= i < gs.len() && (#[trigger] gs[i]).scope == gs[0].scope && entries_have(
                gs[i].entries,
                mj,
                mi,
                pa,
            );
        if i > 0 {
            assert(scope_lt(gs[0].scope, gs[i].scope));
            lemma_scope_lt_order(gs[0].scope, gs[i].scope);
            assert(false);
        }
    }
}

/// The tail of a well-formed registry is well-formed.
proof fn lemma_tail_wf(gs: Seq<GroupView>)
    requires
        registry_wf(gs),
        gs.len() > 0,
    ensures
        registry_wf(gs.drop_first()),
{
    let t = gs.drop_first();
    assert forall|p: int, q: int| 0 <= p < q < t.len() implies scope_lt(
        (#[trigger] t[p]).scope,
        (#[trigger] t[q]).scope,
    ) by {
        assert(t[p] == gs[p + 1]);
        assert(t[q] == gs[q + 1]);
    }
    assert forall|p: int| 0 <= p < t.len() implies entries_sorted((#[trigger] t[p]).entries)
        && t[p].entries.len() > 0 by {
        assert(t[p] == gs[p + 1]);
    }
}

/// Grouping two arrangements of the same tag list yields registries of
/// the same shape: the same scopes in the same order and, under each
/// scope, the same version triples in the same order. Only the display
/// string kept among tags that collide on one (scope, triple) key depends
/// on the input order: the later tag wins.
pub proof fn lemma_group_order_independent_shape(tags1: Seq<Seq<char>>, tags2: Seq<Seq<char>>)
    requires
        tags1.to_multiset() == tags2.to_multiset(),
    ensures
        same_shape(spec_group(tags1), spec_group(tags2)),
{
    lemma_spec_group_wf(tags1);
    lemma_spec_group_wf(tags2);
    lemma_group_order_independent(tags1, tags2);
    lemma_sorted_regs_same_shape(spec_group(tags1), spec_group(tags2));
}

impl ScopeRegistry {
    /// The group holding `scope`'s versions, when one exists.
    pub fn group_for_scope(&self, scope: &Option<String>) -> (r: Option<&ScopeGroup>)
        ensures
            r matches Some(g) ==> (exists|i: int|
                0 <= i < self@.len() && self@[i] == g@) && g@.scope == opt_str_view(*scope),
            r is None ==> forall|i: int|
                0 <= i < self@.len() ==> (#[trigger] self@[i].scope) != opt_str_view(*scope),
    {
        let mut i: usize = 0;
        while i < self.groups.len()
            invariant
                i <= self.groups.len(),
                forall|j: int| 0 <= j < i ==> (#[trigger] self@[j].scope) != opt_str_view(*scope),
            decreases self.groups.len() - i,
        {
            proof {
                assert(self@[i as int] == self.groups@[i as int]@);
            }
            if scope_eq_exec(&self.groups[i].scope, scope) {
                let g = &self.groups[i];
                proof {
                    assert(self@[i as int] == g@);
                }
                return Some(g);
            }
            i = i + 1;
        }
        None
    }

    /// The display string of the highest version under `scope`, or the
    /// error naming the scope when it holds no tags.
    pub fn latest_for_scope(&self, scope: &Option<String>) -> (r: Result<String, ScopeError>)
        requires
            registry_wf(self@),
        ensures
            r matches Ok(d) ==> exists|i: int|
                0 <= i < self@.len() && (#[trigger] self@[i]).scope == opt_str_view(*scope)
                    && d@ == self@[i].entries.last().display,
            r matches Err(e) ==> (forall|i: int|
                0 <= i < self@.len() ==> (#[trigger] self@[i].scope) != opt_str_view(*scope))
                && (e matches ScopeError::NoTagsForScope(sc) && opt_str_view(sc) == opt_str_view(
                *scope,
            )),
    {
        match self.group_for_scope(scope) {
            Some(g) => {
                let n = g.entries.len();
                proof {
                    let i = choose|i: int| 0 <= i < self@.len() && self@[i] == g@;
                    assert(g@.entries.len() > 0);
                    assert(g@.entries[n - 1] == g.entries@[n - 1]@);
                }
                Ok(g.entries[n - 1].display.clone())
            }
            None => Err(ScopeError::NoTagsForScope(clone_opt_string(scope))),
        }
    }
}

} // verus!
