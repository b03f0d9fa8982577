//! Laws of running a notebook: the run-all program runs the cells in the
//! order it is given, every helper reaches the shared prelude, and a
//! protocol block read back gives the cell the output it printed.

use vstd::prelude::*;
use crate::codegen::{
    call_text, helper_piece, helpers_text, main_blocks, prelude_header, prelude_text, run_all_block,
    run_all_text, cells_fn_text, defs_text,
};
use crate::notebook::{cell_index, lemma_cell_index, Cell, Notebook};
use crate::runner::{json_string_value, scan_line, scan_lines, string_or_empty, Scan};
use crate::json::json_reads;
use crate::source_util::stripped_source;
use crate::text::{matches_at, trim};

verus! {

/// The texts of `ts` one after another.
pub open spec fn concat_texts(ts: Seq<Seq<char>>) -> Seq<char>
    decreases ts.len(),
{
    if ts.len() == 0 { seq![] } else { concat_texts(ts.drop_last()) + ts.last() }
}

/// Some cell of `cs` is named `n`, and `b` is the run-all block that runs it.
pub open spec fn runs_cell_named(cs: Seq<Cell>, n: Seq<char>, b: Seq<char>) -> bool {
    exists|j: int| 0 <= j < cs.len() && cs[j].name@ == n && b == run_all_block(n, call_text(cs[j]))
}

spec fn order_blocks(cs: Seq<Cell>, order: Seq<Seq<char>>) -> Seq<Seq<char>> {
    Seq::new(order.len(), |k: int| run_all_block(order[k], call_text(cs[cell_index(cs, order[k])->0])))
}

proof fn lemma_main_blocks(cs: Seq<Cell>, order: Seq<Seq<char>>)
    requires
        forall|k: int| 0 <= k < order.len() ==> cell_index(cs, #[trigger] order[k]) is Some,
    ensures
        main_blocks(cs, order) == concat_texts(order_blocks(cs, order)),
        forall|k: int| 0 <= k < order.len() ==> runs_cell_named(cs, order[k], #[trigger] order_blocks(cs, order)[k]),
    decreases order.len(),
{
    let bs = order_blocks(cs, order);
    if order.len() > 0 {
        let o2 = order.drop_last();
        assert forall|k: int| 0 <= k < o2.len() implies cell_index(cs, #[trigger] o2[k]) is Some by {
            assert(o2[k] == order[k]);
        }
        lemma_main_blocks(cs, o2);
        assert(bs.drop_last() =~= order_blocks(cs, o2));
        assert(cell_index(cs, order[order.len() - 1]) is Some);
        lemma_cell_index(cs, order.last());
        let c = cs[cell_index(cs, order.last())->0];
        assert(c.name@ == order.last());
        assert(bs.last() == run_all_block(c.name@, call_text(c)));
        assert(main_blocks(cs, order) == main_blocks(cs, o2) + run_all_block(c.name@, call_text(c)));
    }
    assert forall|k: int| 0 <= k < order.len() implies runs_cell_named(cs, order[k], #[trigger] bs[k]) by {
        assert(cell_index(cs, order[k]) is Some);
        lemma_cell_index(cs, order[k]);
        let j = cell_index(cs, order[k])->0;
        assert(cs[j].name@ == order[k]);
    }
}

/// The run-all program's `main` is one block per entry of the order, in
/// that order: the `k`-th block runs a cell named by the `k`-th entry, so
/// a cell runs only after every cell before it in the order has run and
/// bound its value.
pub proof fn law_run_all_follows_the_order(nb: Notebook, order: Seq<Seq<char>>)
    requires
        forall|k: int| 0 <= k < order.len() ==> cell_index(nb.cells@, #[trigger] order[k]) is Some,
    ensures
        exists|blocks: Seq<Seq<char>>| {
            &&& blocks.len() == order.len()
            &&& run_all_text(nb, order) == prelude_text(nb) + "use gag::BufferRedirect;\nuse std::io::Read;\n\n"@
                + cells_fn_text(nb.cells@) + "fn main() {\n"@ + concat_texts(blocks) + "}\n"@
            &&& forall|k: int| 0 <= k < order.len() ==> runs_cell_named(nb.cells@, order[k], #[trigger] blocks[k])
        },
{
    lemma_main_blocks(nb.cells@, order);
    let bs = order_blocks(nb.cells@, order);
    assert(bs.len() == order.len());
}

proof fn lemma_helpers_prefix(hs: Seq<crate::notebook::Helper>, m: int)
    requires
        0 <= m <= hs.len(),
    ensures
        helpers_text(hs.take(m)).len() <= helpers_text(hs).len(),
        helpers_text(hs).take(helpers_text(hs.take(m)).len() as int) == helpers_text(hs.take(m)),
    decreases hs.len() - m,
{
    if m == hs.len() {
        assert(hs.take(m) =~= hs);
    } else {
        lemma_helpers_prefix(hs, m + 1);
        assert(hs.take(m + 1).drop_last() =~= hs.take(m));
        let a = helpers_text(hs.take(m));
        let b = helpers_text(hs.take(m + 1));
        let t = helpers_text(hs);
        assert(b == a + helper_piece(hs.take(m + 1).last()));
        assert(t.take(a.len() as int) =~= b.take(a.len() as int));
    }
}

/// Every helper, marked as one or a plain function, whose source without
/// labrs attributes is not blank stands in the shared prelude, followed by
/// a blank line.
pub proof fn law_every_helper_reaches_the_prelude(nb: Notebook)
    ensures
        forall|j: int| 0 <= j < nb.helpers@.len() && trim(stripped_source(#[trigger] nb.helpers@[j].source@)).len() != 0
            ==> exists|i: int| #[trigger] matches_at(prelude_text(nb), stripped_source(nb.helpers@[j].source@) + "\n\n"@, i),
{
    let hs = nb.helpers@;
    assert forall|j: int| 0 <= j < hs.len() && trim(stripped_source(#[trigger] hs[j].source@)).len() != 0
        implies exists|i: int| #[trigger] matches_at(prelude_text(nb), stripped_source(hs[j].source@) + "\n\n"@, i) by {
        lemma_helper_in_prelude(nb, j);
    }
}

proof fn lemma_helper_in_prelude(nb: Notebook, j: int)
    requires
        0 <= j < nb.helpers@.len(),
        trim(stripped_source(nb.helpers@[j].source@)).len() != 0,
    ensures
        matches_at(prelude_text(nb), stripped_source(nb.helpers@[j].source@) + "\n\n"@,
            ((prelude_header() + defs_text(nb.definitions@)).len() + helpers_text(nb.helpers@.take(j)).len()) as int),
{
    let hs = nb.helpers@;
    let piece = stripped_source(hs[j].source@) + "\n\n"@;
    lemma_helpers_prefix(hs, j + 1);
    assert(hs.take(j + 1).drop_last() =~= hs.take(j));
    assert(hs.take(j + 1).last() == hs[j]);
    let a = helpers_text(hs.take(j));
    let b = helpers_text(hs.take(j + 1));
    let t = helpers_text(hs);
    assert(helper_piece(hs[j]) == piece);
    assert(b == a + piece);
    let pre = prelude_header() + defs_text(nb.definitions@);
    let p = prelude_text(nb);
    assert(p == pre + t);
    let i: int = (pre.len() + a.len()) as int;
    let e: int = i + piece.len();
    assert(t.take(b.len() as int) == b);
    assert(p.subrange(i, e) =~= t.subrange(a.len() as int, b.len() as int));
    assert(t.subrange(a.len() as int, b.len() as int) =~= b.subrange(a.len() as int, b.len() as int));
    assert(b.subrange(a.len() as int, b.len() as int) =~= piece);
}

/// The lines a generated program prints for cell `n`: its start marker,
/// value, standard output, standard error and end marker, each field the
/// text printed after its marker.
pub open spec fn protocol_block(n: Seq<char>, value: Seq<char>, out: Seq<char>, err: Seq<char>) -> Seq<Seq<char>> {
    seq![
        "___LABRS_CELL_START___"@ + n + "___"@,
        "___LABRS_VALUE___"@ + value,
        "___LABRS_STDOUT___"@ + out,
        "___LABRS_STDERR___"@ + err,
        "___LABRS_CELL_END___"@ + n + "___"@,
    ]
}

proof fn lemma_scan_step(ls: Seq<Seq<char>>, l: Seq<char>)
    ensures
        scan_lines(ls.push(l)) == scan_line(scan_lines(ls), l),
{
    assert(ls.push(l).drop_last() =~= ls);
}

/// A protocol block read after any lines gives one more finished cell:
/// named as its markers say, with the standard output and standard error
/// that its JSON string lines denote (empty when a line is no JSON
/// string), and its value text (`null` when it is no JSON value).
pub proof fn law_block_reads_back(pre: Seq<Seq<char>>, n: Seq<char>, value: Seq<char>, out: Seq<char>, err: Seq<char>)
    ensures
        scan_lines(pre + protocol_block(n, value, out, err)).done == scan_lines(pre).done.push((
            n,
            string_or_empty(json_string_value(out)),
            string_or_empty(json_string_value(err)),
            if json_reads(value) { value } else { "null"@ },
        )),
        scan_lines(pre + protocol_block(n, value, out, err)).current is None,
{
    reveal_strlit("___LABRS_CELL_START___");
    reveal_strlit("___LABRS_VALUE___");
    reveal_strlit("___LABRS_STDOUT___");
    reveal_strlit("___LABRS_STDERR___");
    reveal_strlit("___LABRS_CELL_END___");
    reveal_strlit("___");
    let start = "___LABRS_CELL_START___"@;
    let vm = "___LABRS_VALUE___"@;
    let om = "___LABRS_STDOUT___"@;
    let em = "___LABRS_STDERR___"@;
    let endm = "___LABRS_CELL_END___"@;
    let b = protocol_block(n, value, out, err);
    let l0 = b[0];
    let l1 = b[1];
    let l2 = b[2];
    let l3 = b[3];
    let l4 = b[4];
    assert(pre + b =~= pre.push(l0).push(l1).push(l2).push(l3).push(l4));
    lemma_scan_step(pre, l0);
    lemma_scan_step(pre.push(l0), l1);
    lemma_scan_step(pre.push(l0).push(l1), l2);
    lemma_scan_step(pre.push(l0).push(l1).push(l2), l3);
    lemma_scan_step(pre.push(l0).push(l1).push(l2).push(l3), l4);
    let s0 = scan_lines(pre);
    // start line
    assert(l0.take(start.len() as int) =~= start);
    let rest0 = l0.skip(start.len() as int);
    assert(rest0 =~= n + "___"@);
    assert(rest0.skip(rest0.len() - 3) =~= "___"@);
    assert(rest0.take(rest0.len() - 3) =~= n);
    let s1 = scan_line(s0, l0);
    assert(s1 == Scan { current: Some(n), out: seq![], err: seq![], value: "null"@, done: s0.done });
    // value line
    assert(l1[9] != start[9]);
    assert(!crate::text::starts_with(l1, start)) by {
        if crate::text::starts_with(l1, start) {
            assert(l1.take(start.len() as int)[9] == start[9]);
        }
    }
    assert(l1.take(vm.len() as int) =~= vm);
    assert(l1.skip(vm.len() as int) =~= value);
    let s2 = scan_line(s1, l1);
    assert(s2 == Scan { current: Some(n), out: seq![], err: seq![], value: if json_reads(value) { value } else { "null"@ }, done: s0.done });
    // stdout line
    assert(!crate::text::starts_with(l2, start)) by {
        if crate::text::starts_with(l2, start) {
            assert(l2.take(start.len() as int)[9] == start[9]);
        }
    }
    assert(!crate::text::starts_with(l2, vm)) by {
        if crate::text::starts_with(l2, vm) {
            assert(l2.take(vm.len() as int)[9] == vm[9]);
        }
    }
    assert(l2.take(om.len() as int) =~= om);
    assert(l2.skip(om.len() as int) =~= out);
    let s3 = scan_line(s2, l2);
    assert(s3.current == Some(n) && s3.out == string_or_empty(json_string_value(out)) && s3.err == Seq::<char>::empty());
    assert(s3.done == s0.done && s3.value == s2.value);
    // stderr line
    assert(!crate::text::starts_with(l3, start)) by {
        if crate::text::starts_with(l3, start) {
            assert(l3.take(start.len() as int)[9] == start[9]);
        }
    }
    assert(!crate::text::starts_with(l3, vm)) by {
        if crate::text::starts_with(l3, vm) {
            assert(l3.take(vm.len() as int)[9] == vm[9]);
        }
    }
    assert(!crate::text::starts_with(l3, om)) by {
        if crate::text::starts_with(l3, om) {
            assert(l3.take(om.len() as int)[12] == om[12]);
        }
    }
    assert(l3.take(em.len() as int) =~= em);
    assert(l3.skip(em.len() as int) =~= err);
    let s4 = scan_line(s3, l3);
    assert(s4.current == Some(n) && s4.out == s3.out && s4.err == string_or_empty(json_string_value(err)));
    assert(s4.done == s0.done && s4.value == s2.value);
    // end line
    assert(!crate::text::starts_with(l4, start)) by {
        if crate::text::starts_with(l4, start) {
            assert(l4.take(start.len() as int)[14] == start[14]);
        }
    }
    assert(!crate::text::starts_with(l4, vm)) by {
        if crate::text::starts_with(l4, vm) {
            assert(l4.take(vm.len() as int)[9] == vm[9]);
        }
    }
    assert(!crate::text::starts_with(l4, om)) by {
        if crate::text::starts_with(l4, om) {
            assert(l4.take(om.len() as int)[9] == om[9]);
        }
    }
    assert(!crate::text::starts_with(l4, em)) by {
        if crate::text::starts_with(l4, em) {
            assert(l4.take(em.len() as int)[9] == em[9]);
        }
    }
    assert(l4.take(endm.len() as int) =~= endm);
}

} // verus!
