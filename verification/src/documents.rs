//! What a JSON patch document asks for: which operations its sections stand for,
//! and in what order.

use crate::json::SpecJson;
use crate::patch::{
    all_ok, assign_op, delete_op, document_ops, lemma_filter_uniform, lemma_of_rank, of_rank, rank,
    rename_op, section_ops, SpecOp,
};
use vstd::prelude::*;
use vstd::string::*;

verus! {

/// All results are there exactly where none is an error.
pub proof fn lemma_all_ok_each<T>(results: Seq<Result<T, Seq<char>>>)
    ensures
        all_ok(results) matches Ok(done) ==> done.len() == results.len() && forall|j: int|
            0 <= j < results.len() ==> #[trigger] results[j] == Ok::<T, Seq<char>>(done[j]),
        all_ok(results) is Ok <==> forall|j: int|
            0 <= j < results.len() ==> (#[trigger] results[j]) is Ok,
    decreases results.len(),
{
    if results.len() > 0 {
        let init = results.drop_last();
        lemma_all_ok_each(init);
        assert(results.last() == results[results.len() - 1]);
        if let Ok(done) = all_ok(results) {
            let before = all_ok(init)->Ok_0;
            assert forall|j: int| 0 <= j < results.len() implies #[trigger] results[j] == Ok::<
                T,
                Seq<char>,
            >(done[j]) by {
                if j < init.len() {
                    assert(init[j] == results[j]);
                    assert(done[j] == before[j]);
                }
            }
        } else if all_ok(init) is Err {
            let j = choose|j: int| 0 <= j < init.len() && !((#[trigger] init[j]) is Ok);
            assert(results[j] == init[j]);
        }
    }
}

/// A document with one section.
pub open spec fn with_section(name: Seq<char>, body: SpecJson) -> SpecJson {
    SpecJson::Obj(seq![(name, body)])
}

/// The sections have different names.
proof fn lemma_section_names()
    ensures
        "delete"@.len() == 6 && "delete"@[0] == 'd',
        "rename"@.len() == 6 && "rename"@[0] == 'r',
        "set"@.len() == 3,
{
    reveal_strlit("delete");
    reveal_strlit("rename");
    reveal_strlit("set");
}

/// The operations of each section.
#[verifier::opaque]
spec fn runs_of(sections: Seq<(Seq<char>, SpecJson)>) -> Result<Seq<Seq<SpecOp>>, Seq<char>> {
    all_ok(Seq::new(sections.len(), |i: int| section_ops(sections[i])))
}

/// Operations in the fixed order.
#[verifier::opaque]
spec fn in_order(runs: Seq<Seq<SpecOp>>) -> Seq<SpecOp> {
    of_rank(runs, 0) + of_rank(runs, 1) + of_rank(runs, 2)
}

/// A document asks for the operations of its sections, in the fixed order.
proof fn lemma_document(sections: Seq<(Seq<char>, SpecJson)>)
    ensures
        match runs_of(sections) {
            Ok(runs) => if in_order(runs).len() == 0 {
                document_ops(SpecJson::Obj(sections)) is Err
            } else {
                document_ops(SpecJson::Obj(sections)) == Ok::<Seq<SpecOp>, Seq<char>>(
                    in_order(runs),
                )
            },
            Err(e) => document_ops(SpecJson::Obj(sections)) is Err,
        },
{
    reveal(runs_of);
    reveal(in_order);
}

/// The runs of one section are its operations.
proof fn lemma_one_run(name: Seq<char>, body: SpecJson, ops: Seq<SpecOp>)
    requires
        section_ops((name, body)) == Ok::<Seq<SpecOp>, Seq<char>>(ops),
    ensures
        runs_of(seq![(name, body)]) == Ok::<Seq<Seq<SpecOp>>, Seq<char>>(seq![ops]),
{
    reveal(runs_of);
    let sections = seq![(name, body)];
    let results = Seq::new(sections.len(), |i: int| section_ops(sections[i]));
    lemma_all_ok_each(results);
    assert(results[0] == section_ops(sections[0]));
    let done = all_ok(results)->Ok_0;
    assert(results[0] == Ok::<Seq<SpecOp>, Seq<char>>(done[0]));
    assert(done =~= seq![ops]);
}

/// What one run holds of a rank.
proof fn lemma_of_rank_one(ops: Seq<SpecOp>, r: int)
    ensures
        of_rank(seq![ops], r) == ops.filter(|op: SpecOp| rank(op) == r),
{
    let runs = seq![ops];
    assert(runs.drop_last() =~= Seq::<Seq<SpecOp>>::empty());
    assert(of_rank(runs.drop_last(), r) =~= Seq::<SpecOp>::empty());
    assert(of_rank(runs, r) =~= ops.filter(|op: SpecOp| rank(op) == r));
}

/// A section of operations of one rank is the whole of a document with no other.
proof fn lemma_one_section(name: Seq<char>, body: SpecJson, ops: Seq<SpecOp>, r: int)
    requires
        section_ops((name, body)) == Ok::<Seq<SpecOp>, Seq<char>>(ops),
        forall|i: int| 0 <= i < ops.len() ==> rank(#[trigger] ops[i]) == r,
        0 <= r <= 2,
        ops.len() > 0,
    ensures
        document_ops(with_section(name, body)) == Ok::<Seq<SpecOp>, Seq<char>>(ops),
{
    lemma_document(seq![(name, body)]);
    lemma_one_run(name, body, ops);
    assert(in_order(seq![ops]) =~= ops) by {
        reveal(in_order);
        lemma_of_rank_one(ops, 0);
        lemma_of_rank_one(ops, 1);
        lemma_of_rank_one(ops, 2);
        lemma_filter_uniform(ops, r, 0);
        lemma_filter_uniform(ops, r, 1);
        lemma_filter_uniform(ops, r, 2);
    }
}

/// The entries of a `delete` section are removed, in order.
pub proof fn law_delete_section(keys: Seq<Seq<char>>)
    requires
        keys.len() > 0,
    ensures
        document_ops(
            with_section("delete"@, SpecJson::Arr(keys.map_values(|k: Seq<char>| SpecJson::Str(k)))),
        ) matches Ok(ops) && ops.len() == keys.len() && forall|i: int|
            0 <= i < keys.len() ==> #[trigger] ops[i] == (SpecOp::Remove { key: keys[i] }),
{
    lemma_section_names();
    let items = keys.map_values(|k: Seq<char>| SpecJson::Str(k));
    let results = Seq::new(items.len(), |i: int| delete_op(items[i]));
    lemma_all_ok_each(results);
    let ops = all_ok(results)->Ok_0;
    assert forall|i: int| 0 <= i < keys.len() implies #[trigger] ops[i] == (SpecOp::Remove {
        key: keys[i],
    }) by {
        assert(results[i] == delete_op(items[i]));
    }
    assert forall|i: int| 0 <= i < results.len() implies (#[trigger] results[i]) is Ok by {
        assert(results[i] == delete_op(items[i]));
    }
    lemma_one_section("delete"@, SpecJson::Arr(items), ops, 0);
}

/// The entries of a `rename` section are renamed, old key to new, in order.
pub proof fn law_rename_section(pairs: Seq<(Seq<char>, Seq<char>)>)
    requires
        pairs.len() > 0,
    ensures
        document_ops(
            with_section(
                "rename"@,
                SpecJson::Obj(
                    pairs.map_values(|p: (Seq<char>, Seq<char>)| (p.0, SpecJson::Str(p.1))),
                ),
            ),
        ) matches Ok(ops) && ops.len() == pairs.len() && forall|i: int|
            0 <= i < pairs.len() ==> #[trigger] ops[i] == (SpecOp::Rename {
                from: pairs[i].0,
                to: pairs[i].1,
            }),
{
    lemma_section_names();
    let items = pairs.map_values(|p: (Seq<char>, Seq<char>)| (p.0, SpecJson::Str(p.1)));
    let results = Seq::new(items.len(), |i: int| rename_op(items[i]));
    lemma_all_ok_each(results);
    let ops = all_ok(results)->Ok_0;
    assert forall|i: int| 0 <= i < pairs.len() implies #[trigger] ops[i] == (SpecOp::Rename {
        from: pairs[i].0,
        to: pairs[i].1,
    }) by {
        assert(results[i] == rename_op(items[i]));
    }
    assert forall|i: int| 0 <= i < results.len() implies (#[trigger] results[i]) is Ok by {
        assert(results[i] == rename_op(items[i]));
    }
    lemma_one_section("rename"@, SpecJson::Obj(items), ops, 1);
}

/// The entries of a `set` section are assigned, in order, each as it asks to be;
/// the section is refused exactly where one of them is.
pub proof fn law_set_section(pairs: Seq<(Seq<char>, SpecJson)>)
    requires
        pairs.len() > 0,
    ensures
        document_ops(with_section("set"@, SpecJson::Obj(pairs))) is Ok <==> forall|i: int|
            0 <= i < pairs.len() ==> assign_op(#[trigger] pairs[i]) is Ok,
        document_ops(with_section("set"@, SpecJson::Obj(pairs))) matches Ok(ops) ==> ops.len()
            == pairs.len() && forall|i: int|
            0 <= i < pairs.len() ==> assign_op(#[trigger] pairs[i]) == Ok::<SpecOp, Seq<char>>(
                ops[i],
            ),
{
    lemma_section_names();
    let results = Seq::new(pairs.len(), |i: int| assign_op(pairs[i]));
    lemma_all_ok_each(results);
    assert forall|i: int| 0 <= i < pairs.len() implies assign_op(#[trigger] pairs[i])
        == results[i] by {}
    if let Ok(ops) = all_ok(results) {
        assert forall|i: int| 0 <= i < pairs.len() implies assign_op(#[trigger] pairs[i]) == Ok::<
            SpecOp,
            Seq<char>,
        >(ops[i]) by {
            assert(results[i] == Ok::<SpecOp, Seq<char>>(ops[i]));
        }
        assert forall|i: int| 0 <= i < ops.len() implies rank(#[trigger] ops[i]) == 2 by {
            assert(assign_op(pairs[i]) == Ok::<SpecOp, Seq<char>>(ops[i]));
        }
        lemma_one_section("set"@, SpecJson::Obj(pairs), ops, 2);
    } else {
        let k = choose|k: int| 0 <= k < results.len() && !((#[trigger] results[k]) is Ok);
        assert(assign_op(pairs[k]) is Err);
        lemma_refused(seq![("set"@, SpecJson::Obj(pairs))], 0);
    }
}

/// A document with a section that is refused is refused.
proof fn lemma_refused(sections: Seq<(Seq<char>, SpecJson)>, k: int)
    requires
        0 <= k < sections.len(),
        section_ops(sections[k]) is Err,
    ensures
        document_ops(SpecJson::Obj(sections)) is Err,
{
    let results = Seq::new(sections.len(), |i: int| section_ops(sections[i]));
    lemma_all_ok_each(results);
    assert(results[k] == section_ops(sections[k]));
}

/// A document is refused where it is no object, holds nothing, or holds a section
/// that is not known or not of the kind it should be.
pub proof fn law_other_documents_are_refused(doc: SpecJson)
    ensures
        !(doc is Obj) ==> document_ops(doc) is Err,
        doc matches SpecJson::Obj(sections) ==> {
            &&& sections.len() == 0 ==> document_ops(doc) is Err
            &&& (exists|i: int|
                0 <= i < sections.len() && match (#[trigger] sections[i]).1 {
                    SpecJson::Arr(_) => sections[i].0 != "delete"@,
                    SpecJson::Obj(_) => sections[i].0 != "rename"@ && sections[i].0 != "set"@,
                    _ => true,
                }) ==> document_ops(doc) is Err
        },
{
    lemma_section_names();
    if let SpecJson::Obj(sections) = doc {
        if sections.len() == 0 {
            let results = Seq::new(sections.len(), |i: int| section_ops(sections[i]));
            assert(all_ok(results) == Ok::<Seq<Seq<SpecOp>>, Seq<char>>(Seq::empty()));
        }
        if exists|i: int|
            0 <= i < sections.len() && match (#[trigger] sections[i]).1 {
                SpecJson::Arr(_) => sections[i].0 != "delete"@,
                SpecJson::Obj(_) => sections[i].0 != "rename"@ && sections[i].0 != "set"@,
                _ => true,
            } {
            let k = choose|i: int|
                0 <= i < sections.len() && match (#[trigger] sections[i]).1 {
                    SpecJson::Arr(_) => sections[i].0 != "delete"@,
                    SpecJson::Obj(_) => sections[i].0 != "rename"@ && sections[i].0 != "set"@,
                    _ => true,
                };
            lemma_refused(sections, k);
        }
    }
}

/// The removals among operations, in order.
#[verifier::opaque]
pub open spec fn removals(ops: Seq<SpecOp>) -> Seq<SpecOp> {
    ops.filter(|op: SpecOp| op is Remove)
}

/// The renames among operations, in order.
#[verifier::opaque]
pub open spec fn renames(ops: Seq<SpecOp>) -> Seq<SpecOp> {
    ops.filter(|op: SpecOp| op is Rename)
}

/// The assignments among operations, in order.
#[verifier::opaque]
pub open spec fn assignments(ops: Seq<SpecOp>) -> Seq<SpecOp> {
    ops.filter(|op: SpecOp| op is Assign)
}

/// All results of two lists are those of both.
proof fn lemma_all_ok_concat<T>(a: Seq<Result<T, Seq<char>>>, b: Seq<Result<T, Seq<char>>>)
    requires
        all_ok(a) is Ok,
        all_ok(b) is Ok,
    ensures
        all_ok(a + b) == Ok::<Seq<T>, Seq<char>>(all_ok(a)->Ok_0 + all_ok(b)->Ok_0),
    decreases b.len(),
{
    if b.len() == 0 {
        assert(a + b =~= a);
        assert(all_ok(a)->Ok_0 + all_ok(b)->Ok_0 =~= all_ok(a)->Ok_0);
    } else {
        lemma_all_ok_concat(a, b.drop_last());
        assert((a + b).drop_last() =~= a + b.drop_last());
        assert((a + b).last() == b.last());
        let x = all_ok(a)->Ok_0;
        let y = all_ok(b.drop_last())->Ok_0;
        let v = b.last()->Ok_0;
        assert((x + y).push(v) =~= x + y.push(v));
    }
}

/// What two lists of runs hold of a rank is what each of them holds.
proof fn lemma_of_rank_concat(a: Seq<Seq<SpecOp>>, b: Seq<Seq<SpecOp>>, r: int)
    ensures
        of_rank(a + b, r) == of_rank(a, r) + of_rank(b, r),
    decreases b.len(),
{
    if b.len() == 0 {
        assert(a + b =~= a);
        assert(of_rank(a, r) + of_rank(b, r) =~= of_rank(a, r));
    } else {
        lemma_of_rank_concat(a, b.drop_last(), r);
        assert((a + b).drop_last() =~= a + b.drop_last());
        assert((a + b).last() == b.last());
        let f = b.last().filter(|op: SpecOp| rank(op) == r);
        assert(of_rank(a, r) + of_rank(b.drop_last(), r) + f =~= of_rank(a, r) + (of_rank(
            b.drop_last(),
            r,
        ) + f));
    }
}

/// The kinds of operations in runs that are put in order.
proof fn lemma_kinds(runs: Seq<Seq<SpecOp>>)
    ensures
        removals(in_order(runs)) == of_rank(runs, 0),
        renames(in_order(runs)) == of_rank(runs, 1),
        assignments(in_order(runs)) == of_rank(runs, 2),
        in_order(runs) == of_rank(runs, 0) + of_rank(runs, 1) + of_rank(runs, 2),
{
    reveal(in_order);
    reveal(removals);
    reveal(renames);
    reveal(assignments);
    let a = of_rank(runs, 0);
    let b = of_rank(runs, 1);
    let c = of_rank(runs, 2);
    let ops = a + b + c;
    let f0 = |op: SpecOp| rank(op) == 0;
    let f1 = |op: SpecOp| rank(op) == 1;
    let f2 = |op: SpecOp| rank(op) == 2;
    assert(f0 =~= (|op: SpecOp| op is Remove));
    assert(f1 =~= (|op: SpecOp| op is Rename));
    assert(f2 =~= (|op: SpecOp| op is Assign));
    lemma_of_rank(runs, 0);
    lemma_of_rank(runs, 1);
    lemma_of_rank(runs, 2);
    Seq::<SpecOp>::filter_distributes_over_add(a + b, c, f0);
    Seq::<SpecOp>::filter_distributes_over_add(a, b, f0);
    Seq::<SpecOp>::filter_distributes_over_add(a + b, c, f1);
    Seq::<SpecOp>::filter_distributes_over_add(a, b, f1);
    Seq::<SpecOp>::filter_distributes_over_add(a + b, c, f2);
    Seq::<SpecOp>::filter_distributes_over_add(a, b, f2);
    lemma_filter_uniform(a, 0, 0);
    lemma_filter_uniform(a, 0, 1);
    lemma_filter_uniform(a, 0, 2);
    lemma_filter_uniform(b, 1, 0);
    lemma_filter_uniform(b, 1, 1);
    lemma_filter_uniform(b, 1, 2);
    lemma_filter_uniform(c, 2, 0);
    lemma_filter_uniform(c, 2, 1);
    lemma_filter_uniform(c, 2, 2);
    assert(ops.filter(f0) =~= a);
    assert(ops.filter(f1) =~= b);
    assert(ops.filter(f2) =~= c);
}

/// Whatever the order of its sections, a document asks for its removals first,
/// then its renames, then its assignments; and what two documents ask for, the
/// document with the sections of both asks for, each kind in order.
pub proof fn law_sections_add_up(a: Seq<(Seq<char>, SpecJson)>, b: Seq<(Seq<char>, SpecJson)>)
    ensures
        document_ops(SpecJson::Obj(a)) matches Ok(ops) ==> ops == removals(ops) + renames(ops)
            + assignments(ops),
        document_ops(SpecJson::Obj(a)) is Ok && document_ops(SpecJson::Obj(b)) is Ok ==> {
            let x = document_ops(SpecJson::Obj(a))->Ok_0;
            let y = document_ops(SpecJson::Obj(b))->Ok_0;
            &&& document_ops(SpecJson::Obj(a + b)) matches Ok(z) && {
                &&& removals(z) == removals(x) + removals(y)
                &&& renames(z) == renames(x) + renames(y)
                &&& assignments(z) == assignments(x) + assignments(y)
            }
        },
{
    if let Ok(x) = document_ops(SpecJson::Obj(a)) {
        assert(asks(a, x)) by {
            reveal(asks);
        }
        lemma_kinds_of(a, x);
        if let Ok(y) = document_ops(SpecJson::Obj(b)) {
            assert(asks(b, y)) by {
                reveal(asks);
            }
            let z = lemma_added(a, b, x, y);
            assert(document_ops(SpecJson::Obj(a + b)) == Ok::<Seq<SpecOp>, Seq<char>>(z)) by {
                reveal(asks);
            }
        }
    }
}

/// A document with these sections asks for these operations.
#[verifier::opaque]
spec fn asks(sections: Seq<(Seq<char>, SpecJson)>, ops: Seq<SpecOp>) -> bool {
    document_ops(SpecJson::Obj(sections)) == Ok::<Seq<SpecOp>, Seq<char>>(ops)
}

/// What a document asks for is what its runs hold, in order.
proof fn lemma_asks(sections: Seq<(Seq<char>, SpecJson)>, ops: Seq<SpecOp>)
    ensures
        asks(sections, ops) <==> (runs_of(sections) matches Ok(runs) && ops == in_order(runs)
            && ops.len() > 0),
{
    reveal(asks);
    lemma_document(sections);
}

/// What a document asks for is made up of its removals, renames and assignments.
proof fn lemma_kinds_of(sections: Seq<(Seq<char>, SpecJson)>, ops: Seq<SpecOp>)
    requires
        asks(sections, ops),
    ensures
        ops == removals(ops) + renames(ops) + assignments(ops),
{
    lemma_asks(sections, ops);
    lemma_kinds(runs_of(sections)->Ok_0);
}

/// The kinds of operations in two lists of runs.
proof fn lemma_kinds_added(p: Seq<Seq<SpecOp>>, q: Seq<Seq<SpecOp>>)
    ensures
        removals(in_order(p + q)) == removals(in_order(p)) + removals(in_order(q)),
        renames(in_order(p + q)) == renames(in_order(p)) + renames(in_order(q)),
        assignments(in_order(p + q)) == assignments(in_order(p)) + assignments(in_order(q)),
        in_order(p + q).len() == in_order(p).len() + in_order(q).len(),
{
    lemma_kinds(p);
    lemma_kinds(q);
    lemma_kinds(p + q);
    lemma_of_rank_concat(p, q, 0);
    lemma_of_rank_concat(p, q, 1);
    lemma_of_rank_concat(p, q, 2);
}

/// What the sections of two documents ask for together.
proof fn lemma_added(
    a: Seq<(Seq<char>, SpecJson)>,
    b: Seq<(Seq<char>, SpecJson)>,
    x: Seq<SpecOp>,
    y: Seq<SpecOp>,
) -> (z: Seq<SpecOp>)
    requires
        asks(a, x),
        asks(b, y),
    ensures
        asks(a + b, z),
        removals(z) == removals(x) + removals(y),
        renames(z) == renames(x) + renames(y),
        assignments(z) == assignments(x) + assignments(y),
{
    lemma_asks(a, x);
    lemma_asks(b, y);
    let p = runs_of(a)->Ok_0;
    let q = runs_of(b)->Ok_0;
    let z = in_order(p + q);
    lemma_kinds_added(p, q);
    lemma_runs_concat(a, b);
    lemma_asks(a + b, z);
    z
}

/// The runs of two lists of sections are those of both.
proof fn lemma_runs_concat(a: Seq<(Seq<char>, SpecJson)>, b: Seq<(Seq<char>, SpecJson)>)
    requires
        runs_of(a) is Ok,
        runs_of(b) is Ok,
    ensures
        runs_of(a + b) == Ok::<Seq<Seq<SpecOp>>, Seq<char>>(runs_of(a)->Ok_0 + runs_of(b)->Ok_0),
{
    reveal(runs_of);
    let ra = Seq::new(a.len(), |i: int| section_ops(a[i]));
    let rb = Seq::new(b.len(), |i: int| section_ops(b[i]));
    let ab = a + b;
    let rab = Seq::new(ab.len(), |i: int| section_ops(ab[i]));
    assert(rab =~= ra + rb);
    lemma_all_ok_concat(ra, rb);
}

} // verus!
