//! Laws of the codex cross-reference model: how a name resolves to an entity,
//! and what the per-entity backlink lists hold.

use vstd::prelude::*;
use crate::NodeModel;
use crate::codex::{
    CodexModel, EntityModel, add_ref, add_refs, backlinks_from, backlinks_of, best_from,
    codex_model, empty_backlinks, first_ent_id, first_ent_key, has_offset, is_prefix, names_of,
    ref_scope, resolve_model,
};
use crate::render::{fold, title_in};

verus! {

// ---- resolution laws ------------------------------------------------------------------------

proof fn lemma_first_ent_id(es: Seq<EntityModel>, key: Seq<char>, i: int)
    requires
        0 <= i,
    ensures
        match first_ent_id(es, key, i) {
            Some(j) => i <= j < es.len() && es[j].id == Some(key) && forall|m: int|
                i <= m < j ==> es[m].id != Some(key),
            None => forall|m: int| i <= m < es.len() ==> es[m].id != Some(key),
        },
    decreases es.len() - i,
{
    if i < es.len() && es[i].id != Some(key) {
        lemma_first_ent_id(es, key, i + 1);
    }
}

proof fn lemma_first_ent_key(es: Seq<EntityModel>, key: Seq<char>, i: int)
    requires
        0 <= i,
    ensures
        match first_ent_key(es, key, i) {
            Some(j) => i <= j < es.len() && es[j].key == key,
            None => forall|m: int| i <= m < es.len() ==> es[m].key != key,
        },
    decreases es.len() - i,
{
    if i < es.len() && es[i].key != key {
        lemma_first_ent_key(es, key, i + 1);
    }
}

/// `best_from` picks a same-titled entity whose scope encloses `rscope` and
/// that no later such entity beats on depth.
proof fn lemma_best_from(es: Seq<EntityModel>, key: Seq<char>, rscope: Seq<Seq<char>>, i: int, cur: Option<int>)
    requires
        0 <= i <= es.len(),
        cur matches Some(c) ==> 0 <= c < i && es[c].key == key && is_prefix(es[c].scope, rscope)
            && forall|m: int|
            0 <= m < i && es[m].key == key && is_prefix(es[m].scope, rscope) ==> es[m].scope.len()
                <= es[c].scope.len(),
        cur is None ==> forall|m: int| 0 <= m < i ==> !(es[m].key == key && is_prefix(es[m].scope, rscope)),
    ensures
        match best_from(es, key, rscope, i, cur) {
            Some(b) => 0 <= b < es.len() && es[b].key == key && is_prefix(es[b].scope, rscope)
                && forall|m: int|
                0 <= m < es.len() && es[m].key == key && is_prefix(es[m].scope, rscope)
                    ==> es[m].scope.len() <= es[b].scope.len(),
            None => forall|m: int| 0 <= m < es.len() ==> !(es[m].key == key && is_prefix(es[m].scope, rscope)),
        },
    decreases es.len() - i,
{
    if i < es.len() {
        if es[i].key == key && is_prefix(es[i].scope, rscope) && match cur {
            None => true,
            Some(c) => 0 <= c < es.len() && es[i].scope.len() >= es[c].scope.len(),
        } {
            lemma_best_from(es, key, rscope, i + 1, Some(i));
        } else {
            lemma_best_from(es, key, rscope, i + 1, cur);
        }
    }
}

/// A name resolves exactly when some entity carries it as its `id:` or as its
/// (folded) title, and then to such an entity.
pub proof fn resolve_finds_a_match(es: Seq<EntityModel>, name: Seq<char>, rscope: Seq<Seq<char>>)
    ensures
        match resolve_model(es, name, rscope) {
            Some(i) => 0 <= i < es.len() && (es[i].id == Some(fold(name)) || es[i].key == fold(name)),
            None => forall|m: int|
                0 <= m < es.len() ==> es[m].id != Some(fold(name)) && es[m].key != fold(name),
        },
{
    let key = fold(name);
    lemma_first_ent_id(es, key, 0);
    lemma_first_ent_key(es, key, 0);
    lemma_best_from(es, key, rscope, 0, None);
}

/// An `id:` wins over every title, document-wide, and the first entity
/// declaring it wins over later ones.
pub proof fn resolve_id_first_wins(es: Seq<EntityModel>, name: Seq<char>, rscope: Seq<Seq<char>>, i: int)
    requires
        0 <= i < es.len(),
        es[i].id == Some(fold(name)),
        forall|m: int| 0 <= m < i ==> es[m].id != Some(fold(name)),
    ensures
        resolve_model(es, name, rscope) == Some(i),
{
    lemma_first_ent_id(es, fold(name), 0);
}

/// Without a matching `id:`, a title resolves to a same-titled entity in the
/// nearest scope enclosing the referrer: no other enclosing same-titled
/// entity sits deeper.
pub proof fn resolve_title_nearest_scope(es: Seq<EntityModel>, name: Seq<char>, rscope: Seq<Seq<char>>, i: int)
    requires
        0 <= i < es.len(),
        es[i].key == fold(name),
        is_prefix(es[i].scope, rscope),
        forall|m: int| 0 <= m < es.len() ==> es[m].id != Some(fold(name)),
    ensures
        resolve_model(es, name, rscope) matches Some(b) && 0 <= b < es.len() && es[b].key == fold(name)
            && is_prefix(es[b].scope, rscope) && es[i].scope.len() <= es[b].scope.len(),
{
    let key = fold(name);
    lemma_first_ent_id(es, key, 0);
    lemma_first_ent_key(es, key, 0);
    lemma_best_from(es, key, rscope, 0, None);
}


// ---- backlink laws --------------------------------------------------------------------------

/// One entity's referrers: each heading offset at most once, and never the
/// entity's own.
pub open spec fn refs_ok(l: Seq<(Seq<char>, usize)>, own: usize) -> bool {
    &&& forall|j: int, k: int| 0 <= j < k < l.len() ==> (#[trigger] l[j]).1 != (#[trigger] l[k]).1
    &&& forall|j: int| 0 <= j < l.len() ==> (#[trigger] l[j]).1 != own
}

pub open spec fn backlinks_ok(bl: Seq<Seq<(Seq<char>, usize)>>, es: Seq<EntityModel>) -> bool {
    &&& bl.len() == es.len()
    &&& forall|i: int| 0 <= i < bl.len() ==> refs_ok(#[trigger] bl[i], es[i].start)
}

proof fn lemma_add_ref_ok(
    bl: Seq<Seq<(Seq<char>, usize)>>,
    es: Seq<EntityModel>,
    rscope: Seq<Seq<char>>,
    name: Seq<char>,
    from: usize,
    title: Seq<char>,
)
    requires
        backlinks_ok(bl, es),
    ensures
        backlinks_ok(add_ref(bl, es, rscope, name, from, title), es),
{
    match resolve_model(es, name, rscope) {
        None => {},
        Some(i) => {
            if !(!(0 <= i < bl.len()) || es[i].start == from || has_offset(bl[i], from)) {
                let l = bl[i];
                let l2 = l.push((title, from));
                assert forall|j: int| 0 <= j < l.len() implies (#[trigger] l[j]).1 != from by {
                    if l[j].1 == from {
                        assert(has_offset(l, from));
                    }
                }
                assert(refs_ok(l, es[i].start));
                assert forall|j: int, k: int| 0 <= j < k < l2.len() implies (#[trigger] l2[j]).1 != (
                #[trigger] l2[k]).1 by {
                    if k < l.len() {
                        assert(l2[j] == l[j] && l2[k] == l[k]);
                    } else {
                        assert(l2[j] == l[j]);
                    }
                }
                assert forall|j: int| 0 <= j < l2.len() implies (#[trigger] l2[j]).1 != es[i].start by {
                    if j < l.len() {
                        assert(l2[j] == l[j]);
                    }
                }
                let bl2 = bl.update(i, l2);
                assert forall|m: int| 0 <= m < bl2.len() implies refs_ok(#[trigger] bl2[m], es[m].start) by {
                    if m != i {
                        assert(bl2[m] == bl[m]);
                    }
                }
            }
        },
    }
}

proof fn lemma_add_refs_ok(
    bl: Seq<Seq<(Seq<char>, usize)>>,
    es: Seq<EntityModel>,
    rscope: Seq<Seq<char>>,
    names: Seq<Seq<char>>,
    from: usize,
    title: Seq<char>,
)
    requires
        backlinks_ok(bl, es),
    ensures
        backlinks_ok(add_refs(bl, es, rscope, names, from, title), es),
    decreases names.len(),
{
    if names.len() > 0 {
        lemma_add_refs_ok(bl, es, rscope, names.drop_last(), from, title);
        lemma_add_ref_ok(add_refs(bl, es, rscope, names.drop_last(), from, title), es, rscope, names.last(), from, title);
    }
}

proof fn lemma_backlinks_from_ok(n: NodeModel, d: CodexModel, i: int, bl: Seq<Seq<(Seq<char>, usize)>>)
    requires
        backlinks_ok(bl, d.ents),
    ensures
        backlinks_ok(backlinks_from(n, d, i, bl), d.ents),
    decreases n, n.children.len() - i,
{
    if 0 <= i < n.children.len() {
        let c = n.children[i];
        let bl1 = add_refs(
            bl,
            d.ents,
            ref_scope(c, d.scopes, d.titles),
            names_of(c),
            c.heading_span.start,
            title_in(d.titles, c),
        );
        lemma_add_refs_ok(bl, d.ents, ref_scope(c, d.scopes, d.titles), names_of(c), c.heading_span.start, title_in(d.titles, c));
        lemma_backlinks_from_ok(c, d, 0, bl1);
        lemma_backlinks_from_ok(n, d, i + 1, backlinks_from(c, d, 0, bl1));
    }
}

/// Backlinks list each referrer once and never an entity as its own referrer:
/// per entity, the referring heading offsets are pairwise distinct and differ
/// from the entity's own heading offset; there is one list per entity.
pub proof fn backlinks_dedup_and_skip_self(root: NodeModel)
    ensures
        backlinks_ok(backlinks_of(root), codex_model(root).ents),
{
    let d = codex_model(root);
    let e = empty_backlinks(d.ents.len());
    assert(backlinks_ok(e, d.ents)) by {
        assert forall|i: int| 0 <= i < e.len() implies refs_ok(#[trigger] e[i], d.ents[i].start) by {
            assert(e[i].len() == 0);
        }
    }
    lemma_backlinks_from_ok(root, d, 0, e);
}


/// `bl2` keeps every referrer `bl` records.
pub open spec fn covers(bl: Seq<Seq<(Seq<char>, usize)>>, bl2: Seq<Seq<(Seq<char>, usize)>>) -> bool {
    &&& bl.len() == bl2.len()
    &&& forall|i: int, off: usize|
        0 <= i < bl.len() && #[trigger] has_offset(bl[i], off) ==> has_offset(bl2[i], off)
}

/// Every name `c` holds that resolves to another entity has `c` among that
/// entity's referrers in `bl`.
pub open spec fn names_recorded(c: NodeModel, d: CodexModel, bl: Seq<Seq<(Seq<char>, usize)>>) -> bool {
    forall|k: int|
        0 <= k < names_of(c).len() ==> match resolve_model(
            d.ents,
            #[trigger] names_of(c)[k],
            ref_scope(c, d.scopes, d.titles),
        ) {
            Some(m) => 0 <= m < bl.len() && d.ents[m].start != c.heading_span.start ==> has_offset(
                bl[m],
                c.heading_span.start,
            ),
            None => true,
        }
}

/// `names_recorded` for every node below `n`.
pub open spec fn refs_recorded(n: NodeModel, d: CodexModel, bl: Seq<Seq<(Seq<char>, usize)>>) -> bool
    decreases n,
{
    forall|i: int|
        0 <= i < n.children.len() ==> names_recorded(#[trigger] n.children[i], d, bl) && refs_recorded(
            n.children[i],
            d,
            bl,
        )
}

proof fn lemma_covers_trans(a: Seq<Seq<(Seq<char>, usize)>>, b: Seq<Seq<(Seq<char>, usize)>>, c: Seq<Seq<(Seq<char>, usize)>>)
    requires
        covers(a, b),
        covers(b, c),
    ensures
        covers(a, c),
{
    assert forall|i: int, off: usize| 0 <= i < a.len() && #[trigger] has_offset(a[i], off) implies has_offset(
        c[i],
        off,
    ) by {
        assert(has_offset(b[i], off));
    }
}

proof fn lemma_names_recorded_stable(c: NodeModel, d: CodexModel, a: Seq<Seq<(Seq<char>, usize)>>, b: Seq<Seq<(Seq<char>, usize)>>)
    requires
        names_recorded(c, d, a),
        covers(a, b),
    ensures
        names_recorded(c, d, b),
{
    assert forall|k: int| 0 <= k < names_of(c).len() implies match resolve_model(
        d.ents,
        #[trigger] names_of(c)[k],
        ref_scope(c, d.scopes, d.titles),
    ) {
        Some(m) => 0 <= m < b.len() && d.ents[m].start != c.heading_span.start ==> has_offset(
            b[m],
            c.heading_span.start,
        ),
        None => true,
    } by {
        match resolve_model(d.ents, names_of(c)[k], ref_scope(c, d.scopes, d.titles)) {
            Some(m) => {
                if 0 <= m < b.len() && d.ents[m].start != c.heading_span.start {
                    assert(has_offset(a[m], c.heading_span.start));
                }
            },
            None => {},
        }
    }
}

proof fn lemma_refs_recorded_stable(n: NodeModel, d: CodexModel, a: Seq<Seq<(Seq<char>, usize)>>, b: Seq<Seq<(Seq<char>, usize)>>)
    requires
        refs_recorded(n, d, a),
        covers(a, b),
    ensures
        refs_recorded(n, d, b),
    decreases n,
{
    assert forall|i: int| 0 <= i < n.children.len() implies names_recorded(#[trigger] n.children[i], d, b)
        && refs_recorded(n.children[i], d, b) by {
        lemma_names_recorded_stable(n.children[i], d, a, b);
        lemma_refs_recorded_stable(n.children[i], d, a, b);
    }
}

proof fn lemma_add_ref_records(
    bl: Seq<Seq<(Seq<char>, usize)>>,
    es: Seq<EntityModel>,
    rscope: Seq<Seq<char>>,
    name: Seq<char>,
    from: usize,
    title: Seq<char>,
)
    ensures
        covers(bl, add_ref(bl, es, rscope, name, from, title)),
        match resolve_model(es, name, rscope) {
            Some(m) => 0 <= m < bl.len() && es[m].start != from ==> has_offset(
                add_ref(bl, es, rscope, name, from, title)[m],
                from,
            ),
            None => true,
        },
{
    let r = add_ref(bl, es, rscope, name, from, title);
    match resolve_model(es, name, rscope) {
        None => {},
        Some(m) => {
            if !(0 <= m < bl.len()) || es[m].start == from || has_offset(bl[m], from) {
            } else {
                let l2 = bl[m].push((title, from));
                assert(l2[l2.len() - 1].1 == from);
                assert(has_offset(l2, from));
                assert forall|i: int, off: usize| 0 <= i < bl.len() && #[trigger] has_offset(bl[i], off) implies has_offset(
                    r[i],
                    off,
                ) by {
                    if i == m {
                        let j = choose|j: int| 0 <= j < bl[i].len() && (#[trigger] bl[i][j]).1 == off;
                        assert(l2[j] == bl[i][j]);
                    }
                }
            }
        },
    }
}

proof fn lemma_add_refs_records(
    bl: Seq<Seq<(Seq<char>, usize)>>,
    es: Seq<EntityModel>,
    rscope: Seq<Seq<char>>,
    names: Seq<Seq<char>>,
    from: usize,
    title: Seq<char>,
)
    ensures
        covers(bl, add_refs(bl, es, rscope, names, from, title)),
        forall|k: int|
            0 <= k < names.len() ==> match resolve_model(es, #[trigger] names[k], rscope) {
                Some(m) => 0 <= m < bl.len() && es[m].start != from ==> has_offset(
                    add_refs(bl, es, rscope, names, from, title)[m],
                    from,
                ),
                None => true,
            },
    decreases names.len(),
{
    if names.len() > 0 {
        let prev = add_refs(bl, es, rscope, names.drop_last(), from, title);
        lemma_add_refs_records(bl, es, rscope, names.drop_last(), from, title);
        lemma_add_ref_records(prev, es, rscope, names.last(), from, title);
        let r = add_refs(bl, es, rscope, names, from, title);
        lemma_covers_trans(bl, prev, r);
        assert forall|k: int| 0 <= k < names.len() implies match resolve_model(es, #[trigger] names[k], rscope) {
            Some(m) => 0 <= m < bl.len() && es[m].start != from ==> has_offset(r[m], from),
            None => true,
        } by {
            if k < names.len() - 1 {
                assert(names[k] == names.drop_last()[k]);
                match resolve_model(es, names[k], rscope) {
                    Some(m) => {
                        if 0 <= m < bl.len() && es[m].start != from {
                            assert(has_offset(prev[m], from));
                        }
                    },
                    None => {},
                }
            }
        }
    } else {
        assert(covers(bl, bl));
    }
}

proof fn lemma_backlinks_from_records(n: NodeModel, d: CodexModel, i: int, bl: Seq<Seq<(Seq<char>, usize)>>)
    requires
        0 <= i,
    ensures
        covers(bl, backlinks_from(n, d, i, bl)),
        forall|j: int|
            i <= j < n.children.len() ==> names_recorded(#[trigger] n.children[j], d, backlinks_from(n, d, i, bl))
                && refs_recorded(n.children[j], d, backlinks_from(n, d, i, bl)),
    decreases n, n.children.len() - i,
{
    if i < n.children.len() {
        let c = n.children[i];
        let rs = ref_scope(c, d.scopes, d.titles);
        let bl1 = add_refs(bl, d.ents, rs, names_of(c), c.heading_span.start, title_in(d.titles, c));
        lemma_add_refs_records(bl, d.ents, rs, names_of(c), c.heading_span.start, title_in(d.titles, c));
        let bl2 = backlinks_from(c, d, 0, bl1);
        lemma_backlinks_from_records(c, d, 0, bl1);
        let bl3 = backlinks_from(n, d, i + 1, bl2);
        lemma_backlinks_from_records(n, d, i + 1, bl2);
        lemma_covers_trans(bl, bl1, bl2);
        lemma_covers_trans(bl, bl2, bl3);
        lemma_covers_trans(bl1, bl2, bl3);
        assert(names_recorded(c, d, bl1)) by {
            assert forall|k: int| 0 <= k < names_of(c).len() implies match resolve_model(
                d.ents,
                #[trigger] names_of(c)[k],
                rs,
            ) {
                Some(m) => 0 <= m < bl1.len() && d.ents[m].start != c.heading_span.start ==> has_offset(
                    bl1[m],
                    c.heading_span.start,
                ),
                None => true,
            } by {
                assert(bl1.len() == bl.len());
            }
        }
        lemma_names_recorded_stable(c, d, bl1, bl3);
        assert(refs_recorded(c, d, bl2)) by {
            assert forall|j: int| 0 <= j < c.children.len() implies names_recorded(#[trigger] c.children[j], d, bl2)
                && refs_recorded(c.children[j], d, bl2) by {}
        }
        lemma_refs_recorded_stable(c, d, bl2, bl3);
    } else {
        assert(covers(bl, bl));
    }
}

/// Every reference is recorded: wherever in the document a node names an
/// entity (a metadata value part or a prose `[[wikilink]]`) that resolves,
/// from the node's scope, to an entity other than the node itself, the node's
/// heading offset is among that entity's backlinks.
pub proof fn backlinks_record_every_reference(root: NodeModel)
    ensures
        refs_recorded(root, codex_model(root), backlinks_of(root)),
{
    let d = codex_model(root);
    lemma_backlinks_from_records(root, d, 0, empty_backlinks(d.ents.len()));
}

} // verus!
