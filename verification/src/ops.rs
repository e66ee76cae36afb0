//! Applying line operations to a document: overlap filtering, ordering,
//! de-duplication, and the effect of each single operation.
use vstd::prelude::*;
use crate::text::{
    sv, lv, trim, split_lines, spaces, chars_of, string_of, trim_vec, push_all, split_lines_vec,
};
use crate::types::{FormatterOperation, decimal};

verus! {

// ---------------------------------------------------------------------------
// Single operations
// ---------------------------------------------------------------------------

/// Range operations never end before they start.
pub open spec fn op_wf(op: FormatterOperation) -> bool {
    op.is_replacement() ==> op.start_spec() <= op.end_spec()
}

pub open spec fn ops_wf(ops: Seq<FormatterOperation>) -> bool {
    forall|i: int| 0 <= i < ops.len() ==> op_wf(#[trigger] ops[i])
}

pub proof fn lemma_sv_push(a: Seq<String>, x: String)
    ensures
        sv(a.push(x)) == sv(a).push(x@),
{
    assert(sv(a.push(x)) =~= sv(a).push(x@));
}

/// Replace `ls[s..=e]` by `new`.
pub open spec fn splice(ls: Seq<Seq<char>>, s: int, e: int, new: Seq<Seq<char>>) -> Seq<Seq<char>> {
    ls.take(s) + new + ls.skip(e + 1)
}

/// The effect of one operation on the document lines.
pub open spec fn apply_op_spec(ls: Seq<Seq<char>>, op: FormatterOperation) -> Seq<Seq<char>> {
    match op {
        FormatterOperation::InsertLine { start_line, content } => if start_line <= ls.len() {
            ls.insert(start_line as int, content@)
        } else {
            ls
        },
        FormatterOperation::ReplaceLines { start_line, end_line, lines } => if start_line
            < ls.len() && end_line < ls.len() {
            splice(ls, start_line as int, end_line as int, sv(lines@))
        } else {
            ls
        },
        FormatterOperation::IndentLine { start_line, indent } => if start_line < ls.len() {
            ls.update(start_line as int, indent@ + trim(ls[start_line as int]))
        } else {
            ls
        },
        FormatterOperation::FixListIndent { start_line, indent } => if start_line < ls.len() {
            ls.update(start_line as int, indent@ + trim(ls[start_line as int]))
        } else {
            ls
        },
        FormatterOperation::ReplaceHtmlBlock { start_line, end_line, content } => if start_line
            < ls.len() && end_line < ls.len() {
            splice(ls, start_line as int, end_line as int, split_lines(content@))
        } else {
            ls
        },
    }
}

/// Priority for ordering operations that start at the same line.
pub open spec fn priority(op: FormatterOperation) -> nat {
    match op {
        FormatterOperation::ReplaceLines { .. } => 1,
        FormatterOperation::InsertLine { .. } => 2,
        FormatterOperation::IndentLine { .. } => 3,
        FormatterOperation::FixListIndent { .. } => 4,
        FormatterOperation::ReplaceHtmlBlock { .. } => 5,
    }
}

/// Priority for sorting operations at the same line.
pub fn op_priority(op: &FormatterOperation) -> (r: u8)
    ensures
        r == priority(*op),
{
    match op {
        FormatterOperation::ReplaceLines { .. } => 1,
        FormatterOperation::InsertLine { .. } => 2,
        FormatterOperation::IndentLine { .. } => 3,
        FormatterOperation::FixListIndent { .. } => 4,
        FormatterOperation::ReplaceHtmlBlock { .. } => 5,
    }
}

/// A copy of a string.
pub fn clone_string(s: &String) -> (r: String)
    ensures
        r@ == s@,
        r == *s,
{
    let r = s.clone();
    r
}

pub fn clone_strings(v: &Vec<String>) -> (r: Vec<String>)
    ensures
        r@ == v@,
{
    let mut out: Vec<String> = Vec::new();
    let mut i: usize = 0;
    while i < v.len()
        invariant
            i <= v.len(),
            out@ == v@.take(i as int),
        decreases v.len() - i,
    {
        out.push(clone_string(&v[i]));
        assert(out@ =~= v@.take(i + 1));
        i += 1;
    }
    assert(v@.take(v.len() as int) =~= v@);
    out
}

/// `lines[..s] ++ new ++ lines[e + 1..]`.
fn splice_exec(lines: &mut Vec<String>, s: usize, e: usize, new: &Vec<String>)
    requires
        s <= e < old(lines).len(),
    ensures
        sv(final(lines)@) == splice(sv(old(lines)@), s as int, e as int, sv(new@)),
{
    let mut out: Vec<String> = Vec::new();
    let mut i: usize = 0;
    while i < s
        invariant
            i <= s <= e < lines.len(),
            sv(out@) == sv(lines@).take(i as int),
        decreases s - i,
    {
        let ghost prev = out@;
        out.push(clone_string(&lines[i]));
        proof { lemma_sv_push(prev, lines@[i as int]); }
        assert(sv(lines@).take(i + 1) =~= sv(lines@).take(i as int).push(sv(lines@)[i as int]));
        i += 1;
    }
    let mut k: usize = 0;
    while k < new.len()
        invariant
            k <= new.len(),
            s <= e < lines.len(),
            sv(out@) == sv(lines@).take(s as int) + sv(new@).take(k as int),
        decreases new.len() - k,
    {
        let ghost prev = out@;
        out.push(clone_string(&new[k]));
        proof { lemma_sv_push(prev, new@[k as int]); }
        assert(sv(new@).take(k + 1) =~= sv(new@).take(k as int).push(sv(new@)[k as int]));
        assert(sv(out@) =~= sv(lines@).take(s as int) + sv(new@).take(k + 1));
        k += 1;
    }
    assert(sv(new@).take(new.len() as int) =~= sv(new@));
    let mut j: usize = e + 1;
    while j < lines.len()
        invariant
            e + 1 <= j <= lines.len(),
            sv(out@) == sv(lines@).take(s as int) + sv(new@) + sv(lines@).subrange(e + 1, j as int),
        decreases lines.len() - j,
    {
        let ghost prev = out@;
        out.push(clone_string(&lines[j]));
        proof { lemma_sv_push(prev, lines@[j as int]); }
        assert(sv(lines@).subrange(e + 1, j + 1) =~= sv(lines@).subrange(e + 1, j as int).push(sv(lines@)[j as int]));
        assert(sv(out@) =~= sv(lines@).take(s as int) + sv(new@) + sv(lines@).subrange(
            e + 1,
            j + 1,
        ));
        j += 1;
    }
    assert(sv(lines@).subrange(e + 1, lines.len() as int) =~= sv(lines@).skip(e + 1));
    *lines = out;
}

pub fn strings_of_lines(ls: &Vec<Vec<char>>) -> (r: Vec<String>)
    ensures
        sv(r@) == lv(ls@),
{
    let mut out: Vec<String> = Vec::new();
    let mut i: usize = 0;
    while i < ls.len()
        invariant
            i <= ls.len(),
            sv(out@) == lv(ls@).take(i as int),
        decreases ls.len() - i,
    {
        let s = string_of(&ls[i]);
        let ghost prev = out@;
        out.push(s);
        proof { lemma_sv_push(prev, s); }
        assert(lv(ls@).take(i + 1) =~= lv(ls@).take(i as int).push(lv(ls@)[i as int]));
        i += 1;
    }
    assert(lv(ls@).take(ls.len() as int) =~= lv(ls@));
    out
}

/// `content.split('\n')` as owned strings.
pub fn split_to_strings(content: &str) -> (r: Vec<String>)
    ensures
        sv(r@) == split_lines(content@),
{
    let c = chars_of(content);
    let ls = split_lines_vec(&c);
    strings_of_lines(&ls)
}

/// Replace line `i` by `indent` followed by its trimmed content.
fn reindent_line(lines: &mut Vec<String>, i: usize, indent: &String)
    requires
        i < old(lines).len(),
    ensures
        sv(final(lines)@) == sv(old(lines)@).update(i as int, indent@ + trim(sv(old(lines)@)[i as int])),
{
    let c = chars_of(lines[i].as_str());
    let t = trim_vec(&c);
    let mut v = chars_of(indent.as_str());
    push_all(&mut v, &t);
    let s = string_of(&v);
    let ghost before = lines@;
    lines.remove(i);
    lines.insert(i, s);
    assert(sv(lines@) =~= sv(before).update(i as int, indent@ + trim(sv(before)[i as int])));
}

/// Apply a single operation to the lines.
pub fn apply_operation(lines: &mut Vec<String>, op: &FormatterOperation)
    requires
        op_wf(*op),
    ensures
        sv(final(lines)@) == apply_op_spec(sv(old(lines)@), *op),
{
    match op {
        FormatterOperation::InsertLine { start_line, content } => {
            if *start_line <= lines.len() {
                let ghost before = lines@;
                lines.insert(*start_line, clone_string(content));
                assert(sv(lines@) =~= sv(before).insert(*start_line as int, content@));
            }
        },
        FormatterOperation::ReplaceLines { start_line, end_line, lines: new_lines } => {
            if *start_line < lines.len() && *end_line < lines.len() {
                splice_exec(lines, *start_line, *end_line, new_lines);
            }
        },
        FormatterOperation::IndentLine { start_line, indent } => {
            if *start_line < lines.len() {
                reindent_line(lines, *start_line, indent);
            }
        },
        FormatterOperation::FixListIndent { start_line, indent } => {
            if *start_line < lines.len() {
                reindent_line(lines, *start_line, indent);
            }
        },
        FormatterOperation::ReplaceHtmlBlock { start_line, end_line, content } => {
            if *start_line < lines.len() && *end_line < lines.len() {
                let new_lines = split_to_strings(content.as_str());
                splice_exec(lines, *start_line, *end_line, &new_lines);
            }
        },
    }
}


// ---------------------------------------------------------------------------
// Overlap filtering, ordering, de-duplication
// ---------------------------------------------------------------------------

/// `b`'s range lies inside `a`'s and differs from it (both replacements).
pub open spec fn strictly_inside(a: FormatterOperation, b: FormatterOperation) -> bool {
    &&& a.is_replacement()
    &&& b.is_replacement()
    &&& a.start_spec() <= b.start_spec()
    &&& b.end_spec() <= a.end_spec()
    &&& (a.start_spec() != b.start_spec() || a.end_spec() != b.end_spec())
}

/// Some replacement of `ops` strictly contains `b`.
pub open spec fn overlapped_in(ops: Seq<FormatterOperation>, b: FormatterOperation) -> bool {
    exists|j: int| 0 <= j < ops.len() && strictly_inside(#[trigger] ops[j], b)
}

/// The elements of `s` satisfying `p`, in order.
pub open spec fn keep_if(s: Seq<FormatterOperation>, p: spec_fn(FormatterOperation) -> bool) -> Seq<
    FormatterOperation,
>
    decreases s.len(),
{
    if s.len() == 0 {
        Seq::empty()
    } else {
        (if p(s[0]) {
            seq![s[0]]
        } else {
            Seq::empty()
        }) + keep_if(s.drop_first(), p)
    }
}

/// Replacements strictly contained in a wider replacement are dropped; the
/// rest keeps its order.
pub open spec fn without_overlapped(ops: Seq<FormatterOperation>) -> Seq<FormatterOperation> {
    keep_if(ops, not_overlapped_pred(ops))
}

pub open spec fn not_overlapped_pred(ops: Seq<FormatterOperation>) -> spec_fn(FormatterOperation) -> bool {
    |o: FormatterOperation| !overlapped_in(ops, o)
}

/// A non-replacement operation whose line lies in a replaced range.
pub open spec fn inside_replaced(op: FormatterOperation, ops: Seq<FormatterOperation>) -> bool {
    !op.is_replacement() && exists|j: int|
        0 <= j < ops.len() && (#[trigger] ops[j]).is_replacement() && ops[j].start_spec()
            <= op.start_spec() <= ops[j].end_spec()
}

/// `x` sorts strictly before `e`: later start line first, then lower priority.
pub open spec fn sorts_before(x: FormatterOperation, e: FormatterOperation) -> bool {
    x.start_spec() > e.start_spec() || (x.start_spec() == e.start_spec() && priority(x) < priority(
        e,
    ))
}

/// Where a stable insertion puts `x` into `s`.
pub open spec fn ins_pos(s: Seq<FormatterOperation>, x: FormatterOperation) -> nat
    decreases s.len(),
{
    if s.len() == 0 {
        0
    } else if sorts_before(x, s[0]) {
        0
    } else {
        1 + ins_pos(s.drop_first(), x)
    }
}

/// Stable sort by (start line descending, priority ascending).
pub open spec fn sorted_ops(s: Seq<FormatterOperation>) -> Seq<FormatterOperation>
    decreases s.len(),
{
    if s.len() == 0 {
        Seq::empty()
    } else {
        let t = sorted_ops(s.drop_last());
        t.insert(ins_pos(t, s.last()) as int, s.last())
    }
}

pub open spec fn kind_index(op: FormatterOperation) -> nat {
    match op {
        FormatterOperation::InsertLine { .. } => 0,
        FormatterOperation::ReplaceLines { .. } => 1,
        FormatterOperation::IndentLine { .. } => 2,
        FormatterOperation::FixListIndent { .. } => 3,
        FormatterOperation::ReplaceHtmlBlock { .. } => 4,
    }
}

/// What the de-duplication key identifies: type, start and end line.
pub open spec fn op_key(op: FormatterOperation) -> (nat, nat, nat) {
    (kind_index(op), op.start_spec(), op.end_spec())
}

/// Apply `ops` in order, skipping any whose key was applied before.
pub open spec fn apply_fold(ls: Seq<Seq<char>>, ops: Seq<FormatterOperation>, seen: Set<(nat, nat, nat)>) -> Seq<Seq<char>>
    decreases ops.len(),
{
    if ops.len() == 0 {
        ls
    } else if seen.contains(op_key(ops[0])) {
        apply_fold(ls, ops.drop_first(), seen)
    } else {
        apply_fold(apply_op_spec(ls, ops[0]), ops.drop_first(), seen.insert(op_key(ops[0])))
    }
}

/// The whole application step: drop nested replacements, drop operations
/// inside replaced ranges, order by line descending, apply each distinct
/// operation once.
pub open spec fn applied(ls: Seq<Seq<char>>, ops: Seq<FormatterOperation>) -> Seq<Seq<char>> {
    let f1 = without_overlapped(ops);
    let f2 = keep_if(f1, not_inside_pred(f1));
    apply_fold(ls, sorted_ops(f2), Set::empty())
}

pub proof fn lemma_keep_if_wf(s: Seq<FormatterOperation>, p: spec_fn(FormatterOperation) -> bool)
    requires
        ops_wf(s),
    ensures
        ops_wf(keep_if(s, p)),
    decreases s.len(),
{
    if s.len() > 0 {
        assert(ops_wf(s.drop_first())) by {
            assert forall|i: int| 0 <= i < s.drop_first().len() implies op_wf(
                #[trigger] s.drop_first()[i],
            ) by {
                assert(s.drop_first()[i] == s[i + 1]);
            }
        }
        lemma_keep_if_wf(s.drop_first(), p);
        let h: Seq<FormatterOperation> = if p(s[0]) { seq![s[0]] } else { Seq::empty() };
        assert(op_wf(s[0]));
        let r = h + keep_if(s.drop_first(), p);
        assert forall|i: int| 0 <= i < r.len() implies op_wf(#[trigger] r[i]) by {
            if i < h.len() {
                assert(r[i] == s[0]);
            } else {
                assert(r[i] == keep_if(s.drop_first(), p)[i - h.len()]);
            }
        }
    }
}

pub proof fn lemma_sorted_wf(s: Seq<FormatterOperation>)
    requires
        ops_wf(s),
    ensures
        ops_wf(sorted_ops(s)),
        sorted_ops(s).len() == s.len(),
    decreases s.len(),
{
    if s.len() > 0 {
        assert(ops_wf(s.drop_last())) by {
            assert forall|i: int| 0 <= i < s.drop_last().len() implies op_wf(
                #[trigger] s.drop_last()[i],
            ) by {
                assert(s.drop_last()[i] == s[i]);
            }
        }
        lemma_sorted_wf(s.drop_last());
        let t = sorted_ops(s.drop_last());
        lemma_ins_pos_bound(t, s.last());
        let r = t.insert(ins_pos(t, s.last()) as int, s.last());
        assert(op_wf(s.last()));
        assert forall|i: int| 0 <= i < r.len() implies op_wf(#[trigger] r[i]) by {
            let p = ins_pos(t, s.last()) as int;
            if i < p {
                assert(r[i] == t[i]);
            } else if i == p {
                assert(r[i] == s.last());
            } else {
                assert(r[i] == t[i - 1]);
            }
        }
    }
}

pub proof fn lemma_ins_pos_bound(s: Seq<FormatterOperation>, x: FormatterOperation)
    ensures
        ins_pos(s, x) <= s.len(),
        forall|j: int| 0 <= j < ins_pos(s, x) ==> !sorts_before(x, #[trigger] s[j]),
        ins_pos(s, x) < s.len() ==> sorts_before(x, s[ins_pos(s, x) as int]),
    decreases s.len(),
{
    if s.len() > 0 && !sorts_before(x, s[0]) {
        lemma_ins_pos_bound(s.drop_first(), x);
        assert forall|j: int| 0 <= j < ins_pos(s, x) implies !sorts_before(x, #[trigger] s[j]) by {
            if j > 0 {
                assert(s[j] == s.drop_first()[j - 1]);
            }
        }
    }
}

proof fn lemma_ins_pos_char(s: Seq<FormatterOperation>, x: FormatterOperation, k: int)
    requires
        0 <= k <= s.len(),
        forall|j: int| 0 <= j < k ==> !sorts_before(x, #[trigger] s[j]),
        k == s.len() || sorts_before(x, s[k]),
    ensures
        ins_pos(s, x) == k,
    decreases k,
{
    if k > 0 {
        assert forall|j: int| 0 <= j < k - 1 implies !sorts_before(x, #[trigger] s.drop_first()[j]) by {
            assert(s.drop_first()[j] == s[j + 1]);
        }
        lemma_ins_pos_char(s.drop_first(), x, k - 1);
    }
}

fn is_replacement_exec(op: &FormatterOperation) -> (r: bool)
    ensures
        r == op.is_replacement(),
{
    match op {
        FormatterOperation::ReplaceLines { .. } => true,
        FormatterOperation::ReplaceHtmlBlock { .. } => true,
        _ => false,
    }
}

fn strictly_inside_exec(a: &FormatterOperation, b: &FormatterOperation) -> (r: bool)
    ensures
        r == strictly_inside(*a, *b),
{
    let (as_, ae) = (a.start_line(), a.end_line());
    let (bs, be) = (b.start_line(), b.end_line());
    is_replacement_exec(a) && is_replacement_exec(b) && as_ <= bs && be <= ae && (as_ != bs || ae
        != be)
}

/// Remove replacement operations strictly contained within a wider replacement.
pub fn filter_overlapping_replacements(operations: &mut Vec<FormatterOperation>)
    ensures
        final(operations)@ == without_overlapped(old(operations)@),
{
    let ghost orig = operations@;
    let n = operations.len();
    let mut flags: Vec<bool> = Vec::new();
    let mut i: usize = 0;
    while i < n
        invariant
            n == operations.len(),
            operations@ == orig,
            i <= n,
            flags@.len() == i,
            forall|k: int| 0 <= k < i ==> flags@[k] == overlapped_in(orig, #[trigger] orig[k]),
        decreases n - i,
    {
        let mut found = false;
        let mut j: usize = 0;
        while j < n
            invariant
                n == operations.len(),
                operations@ == orig,
                i < n,
                j <= n,
                found == exists|k: int| 0 <= k < j && strictly_inside(#[trigger] orig[k], orig[i as int]),
            decreases n - j,
        {
            if strictly_inside_exec(&operations[j], &operations[i]) {
                found = true;
            }
            j += 1;
        }
        flags.push(found);
        i += 1;
    }
    let ghost p = not_overlapped_pred(orig);
    let mut kept: Vec<FormatterOperation> = Vec::new();
    let mut i: usize = 0;
    assert(orig.skip(0) =~= orig);
    while i < n
        invariant
            i <= n,
            flags@.len() == n,
            orig.len() == n,
            forall|k: int| 0 <= k < n ==> flags@[k] == overlapped_in(orig, #[trigger] orig[k]),
            operations@ == orig.skip(i as int),
            p == not_overlapped_pred(orig),
            without_overlapped(orig) == kept@ + keep_if(orig.skip(i as int), p),
        decreases n - i,
    {
        let op = operations.remove(0);
        let ghost t = orig.skip(i as int);
        assert(t.drop_first() =~= orig.skip(i + 1));
        assert(operations@ =~= orig.skip(i + 1));
        assert(op == orig[i as int]);
        assert(flags@[i as int] == overlapped_in(orig, orig[i as int]));
        assert(p(orig[i as int]) == !flags@[i as int]);
        assert(keep_if(t, p) == (if p(t[0]) { seq![t[0]] } else { Seq::empty() }) + keep_if(
            t.drop_first(),
            p,
        ));
        let ghost prev = kept@;
        if !flags[i] {
            kept.push(op);
            assert(kept@ + keep_if(orig.skip(i + 1), p) =~= prev + keep_if(orig.skip(i as int), p));
        } else {
            assert(kept@ + keep_if(orig.skip(i + 1), p) =~= prev + keep_if(orig.skip(i as int), p));
        }
        i += 1;
    }
    assert(orig.skip(n as int) =~= Seq::<FormatterOperation>::empty());
    assert(kept@ =~= without_overlapped(orig));
    *operations = kept;
}

/// The `(start, end)` ranges of the replacement operations, in order.
pub open spec fn replaced_ranges(ops: Seq<FormatterOperation>) -> Seq<(usize, usize)>
    decreases ops.len(),
{
    if ops.len() == 0 {
        Seq::empty()
    } else {
        let rest = replaced_ranges(ops.drop_last());
        let o = ops.last();
        if o.is_replacement() {
            rest.push((o.start_spec() as usize, o.end_spec() as usize))
        } else {
            rest
        }
    }
}

/// Get the line ranges covered by replacement operations.
pub fn get_replaced_ranges(operations: &[FormatterOperation]) -> (r: Vec<(usize, usize)>)
    ensures
        r@ == replaced_ranges(operations@),
{
    let mut out: Vec<(usize, usize)> = Vec::new();
    let mut i: usize = 0;
    while i < operations.len()
        invariant
            i <= operations.len(),
            out@ == replaced_ranges(operations@.take(i as int)),
        decreases operations.len() - i,
    {
        assert(operations@.take(i + 1).drop_last() =~= operations@.take(i as int));
        if is_replacement_exec(&operations[i]) {
            out.push((operations[i].start_line(), operations[i].end_line()));
        }
        i += 1;
    }
    assert(operations@.take(operations.len() as int) =~= operations@);
    out
}

pub proof fn lemma_replaced_ranges(ops: Seq<FormatterOperation>, op: FormatterOperation)
    ensures
        (exists|k: int| 0 <= k < replaced_ranges(ops).len() && (#[trigger] replaced_ranges(ops)[k]).0 <= op.start_spec() <= replaced_ranges(ops)[k].1)
        <==> (exists|j: int| 0 <= j < ops.len() && (#[trigger] ops[j]).is_replacement() && ops[j].start_spec() <= op.start_spec() <= ops[j].end_spec()),
    decreases ops.len(),
{
    if ops.len() > 0 {
        let rest = ops.drop_last();
        lemma_replaced_ranges(rest, op);
        let rr = replaced_ranges(ops);
        let o = ops.last();
        if exists|k: int| 0 <= k < rr.len() && (#[trigger] rr[k]).0 <= op.start_spec() <= rr[k].1 {
            let k = choose|k: int| 0 <= k < rr.len() && (#[trigger] rr[k]).0 <= op.start_spec() <= rr[k].1;
            if k < replaced_ranges(rest).len() {
                assert(rr[k] == replaced_ranges(rest)[k]);
                let j = choose|j: int| 0 <= j < rest.len() && (#[trigger] rest[j]).is_replacement() && rest[j].start_spec() <= op.start_spec() <= rest[j].end_spec();
                assert(ops[j] == rest[j]);
            } else {
                assert(ops[ops.len() - 1] == o);
            }
        }
        if exists|j: int| 0 <= j < ops.len() && (#[trigger] ops[j]).is_replacement() && ops[j].start_spec() <= op.start_spec() <= ops[j].end_spec() {
            let j = choose|j: int| 0 <= j < ops.len() && (#[trigger] ops[j]).is_replacement() && ops[j].start_spec() <= op.start_spec() <= ops[j].end_spec();
            if j < rest.len() {
                assert(rest[j] == ops[j]);
                let k = choose|k: int| 0 <= k < replaced_ranges(rest).len() && (#[trigger] replaced_ranges(rest)[k]).0 <= op.start_spec() <= replaced_ranges(rest)[k].1;
                assert(rr[k] == replaced_ranges(rest)[k]);
            } else {
                assert(rr[rr.len() - 1] == (o.start_spec() as usize, o.end_spec() as usize));
            }
        }
    }
}

/// Is the operation a non-replacement whose line lies in one of the ranges?
pub fn is_inside_replaced_range(op: &FormatterOperation, replaced: &[(usize, usize)]) -> (r: bool)
    ensures
        r == (!op.is_replacement() && exists|k: int|
            0 <= k < replaced@.len() && (#[trigger] replaced@[k]).0 <= op.start_spec() <= replaced@[k].1),
{
    if is_replacement_exec(op) {
        return false;
    }
    let line = op.start_line();
    let mut k: usize = 0;
    while k < replaced.len()
        invariant
            k <= replaced.len(),
            line == op.start_spec(),
            !op.is_replacement(),
            forall|j: int| 0 <= j < k ==> !((#[trigger] replaced@[j]).0 <= line <= replaced@[j].1),
        decreases replaced.len() - k,
    {
        let (s, e) = replaced[k];
        if line >= s && line <= e {
            assert(replaced@[k as int].0 <= op.start_spec() <= replaced@[k as int].1);
            return true;
        }
        k += 1;
    }
    false
}


/// Keep the operations whose flag is set, in order.
fn retain_by(ops: &mut Vec<FormatterOperation>, flags: &Vec<bool>, Ghost(p): Ghost<spec_fn(FormatterOperation) -> bool>)
    requires
        flags@.len() == old(ops)@.len(),
        forall|k: int| 0 <= k < flags@.len() ==> flags@[k] == p(#[trigger] old(ops)@[k]),
    ensures
        final(ops)@ == keep_if(old(ops)@, p),
{
    let ghost orig = ops@;
    let n = ops.len();
    let mut kept: Vec<FormatterOperation> = Vec::new();
    let mut i: usize = 0;
    assert(orig.skip(0) =~= orig);
    while i < n
        invariant
            i <= n,
            flags@.len() == n,
            orig.len() == n,
            forall|k: int| 0 <= k < n ==> flags@[k] == p(#[trigger] orig[k]),
            ops@ == orig.skip(i as int),
            keep_if(orig, p) == kept@ + keep_if(orig.skip(i as int), p),
        decreases n - i,
    {
        let op = ops.remove(0);
        let ghost t = orig.skip(i as int);
        assert(t.drop_first() =~= orig.skip(i + 1));
        assert(ops@ =~= orig.skip(i + 1));
        assert(op == orig[i as int]);
        assert(flags@[i as int] == p(orig[i as int]));
        assert(keep_if(t, p) == (if p(t[0]) { seq![t[0]] } else { Seq::empty() }) + keep_if(
            t.drop_first(),
            p,
        ));
        let ghost prev = kept@;
        if flags[i] {
            kept.push(op);
        }
        assert(kept@ + keep_if(orig.skip(i + 1), p) =~= prev + keep_if(orig.skip(i as int), p));
        i += 1;
    }
    assert(orig.skip(n as int) =~= Seq::<FormatterOperation>::empty());
    assert(kept@ =~= keep_if(orig, p));
    *ops = kept;
}

pub open spec fn not_inside_pred(ops: Seq<FormatterOperation>) -> spec_fn(FormatterOperation) -> bool {
    |o: FormatterOperation| !inside_replaced(o, ops)
}

fn kind_index_exec(op: &FormatterOperation) -> (r: u8)
    ensures
        r as nat == kind_index(*op),
{
    match op {
        FormatterOperation::InsertLine { .. } => 0,
        FormatterOperation::ReplaceLines { .. } => 1,
        FormatterOperation::IndentLine { .. } => 2,
        FormatterOperation::FixListIndent { .. } => 3,
        FormatterOperation::ReplaceHtmlBlock { .. } => 4,
    }
}

fn sorts_before_exec(x: &FormatterOperation, e: &FormatterOperation) -> (r: bool)
    ensures
        r == sorts_before(*x, *e),
{
    let (xs, es) = (x.start_line(), e.start_line());
    xs > es || (xs == es && op_priority(x) < op_priority(e))
}

/// Apply operations to the lines: drop replacements nested in wider ones,
/// drop operations inside replaced ranges, order by line (descending, then by
/// priority), and apply each distinct (type, start, end) once.
pub fn apply_operations(lines: Vec<String>, operations: Vec<FormatterOperation>) -> (r: Vec<String>)
    requires
        ops_wf(operations@),
    ensures
        sv(r@) == applied(sv(lines@), operations@),
{
    let mut ops = operations;
    let ghost orig = ops@;
    filter_overlapping_replacements(&mut ops);
    let ghost f1 = ops@;
    proof {
        lemma_keep_if_wf(orig, not_overlapped_pred(orig));
    }
    let ranges = get_replaced_ranges(&ops);
    let mut flags: Vec<bool> = Vec::new();
    let mut i: usize = 0;
    while i < ops.len()
        invariant
            i <= ops.len(),
            ops@ == f1,
            ranges@ == replaced_ranges(f1),
            flags@.len() == i,
            forall|k: int| 0 <= k < i ==> flags@[k] == not_inside_pred(f1)(#[trigger] f1[k]),
        decreases ops.len() - i,
    {
        let inside = is_inside_replaced_range(&ops[i], &ranges);
        proof {
            lemma_replaced_ranges(f1, f1[i as int]);
        }
        flags.push(!inside);
        i += 1;
    }
    retain_by(&mut ops, &flags, Ghost(not_inside_pred(f1)));
    let ghost f2 = ops@;
    proof {
        lemma_keep_if_wf(f1, not_inside_pred(f1));
    }
    // stable insertion sort
    let mut sorted: Vec<FormatterOperation> = Vec::new();
    let n = ops.len();
    let mut k: usize = 0;
    assert(f2.skip(0) =~= f2);
    assert(f2.take(0) =~= Seq::<FormatterOperation>::empty());
    while k < n
        invariant
            k <= n,
            n == f2.len(),
            ops@ == f2.skip(k as int),
            sorted@ == sorted_ops(f2.take(k as int)),
        decreases n - k,
    {
        let x = ops.remove(0);
        assert(x == f2[k as int]);
        assert(ops@ =~= f2.skip(k + 1));
        let mut pos: usize = 0;
        while pos < sorted.len() && !sorts_before_exec(&x, &sorted[pos])
            invariant
                pos <= sorted.len(),
                forall|j: int| 0 <= j < pos ==> !sorts_before(x, #[trigger] sorted@[j]),
            decreases sorted.len() - pos,
        {
            pos += 1;
        }
        proof {
            lemma_ins_pos_char(sorted@, x, pos as int);
            assert(f2.take(k + 1).drop_last() =~= f2.take(k as int));
            assert(f2.take(k + 1).last() == x);
        }
        sorted.insert(pos, x);
        k += 1;
    }
    assert(f2.take(n as int) =~= f2);
    proof {
        lemma_sorted_wf(f2);
    }
    // apply each distinct operation once
    let mut result = lines;
    let mut seen: Vec<(u8, usize, usize)> = Vec::new();
    let ghost mut seen_set: Set<(nat, nat, nat)> = Set::empty();
    let ghost goal = applied(sv(lines@), orig);
    let mut j: usize = 0;
    assert(sorted@.skip(0) =~= sorted@);
    while j < sorted.len()
        invariant
            j <= sorted.len(),
            ops_wf(sorted@),
            goal == apply_fold(sv(result@), sorted@.skip(j as int), seen_set),
            forall|t: (nat, nat, nat)|
                seen_set.contains(t) <==> exists|q: int|
                    0 <= q < seen@.len() && t == ((#[trigger] seen@[q]).0 as nat, seen@[q].1 as nat, seen@[q].2 as nat),
        decreases sorted.len() - j,
    {
        let op = &sorted[j];
        let key = (kind_index_exec(op), op.start_line(), op.end_line());
        let mut found = false;
        let mut q: usize = 0;
        while q < seen.len()
            invariant
                q <= seen.len(),
                found == exists|w: int| 0 <= w < q && #[trigger] seen@[w] == key,
            decreases seen.len() - q,
        {
            if seen[q].0 == key.0 && seen[q].1 == key.1 && seen[q].2 == key.2 {
                found = true;
            }
            q += 1;
        }
        let ghost t = sorted@.skip(j as int);
        assert(t[0] == sorted@[j as int]);
        assert(t.drop_first() =~= sorted@.skip(j + 1));
        assert(op_key(*op) == (key.0 as nat, key.1 as nat, key.2 as nat));
        if found {
            assert(seen_set.contains(op_key(*op)));
        } else {
            assert(!seen_set.contains(op_key(*op))) by {
                if seen_set.contains(op_key(*op)) {
                    let w = choose|w: int| 0 <= w < seen@.len() && op_key(*op) == ((#[trigger] seen@[w]).0 as nat, seen@[w].1 as nat, seen@[w].2 as nat);
                    assert(seen@[w] == key);
                }
            }
            assert(op_wf(sorted@[j as int]));
            apply_operation(&mut result, op);
            let ghost old_set = seen_set;
            let ghost old_seen = seen@;
            proof {
                seen_set = seen_set.insert(op_key(*op));
            }
            seen.push(key);
            assert forall|tt: (nat, nat, nat)|
                seen_set.contains(tt) <==> exists|w: int|
                    0 <= w < seen@.len() && tt == ((#[trigger] seen@[w]).0 as nat, seen@[w].1 as nat, seen@[w].2 as nat) by {
                if seen_set.contains(tt) {
                    if tt == op_key(*op) {
                        assert(seen@[old_seen.len() as int] == key);
                    } else {
                        assert(old_set.contains(tt));
                        let w = choose|w: int| 0 <= w < old_seen.len() && tt == ((#[trigger] old_seen[w]).0 as nat, old_seen[w].1 as nat, old_seen[w].2 as nat);
                        assert(seen@[w] == old_seen[w]);
                    }
                }
                if exists|w: int| 0 <= w < seen@.len() && tt == ((#[trigger] seen@[w]).0 as nat, seen@[w].1 as nat, seen@[w].2 as nat) {
                    let w = choose|w: int| 0 <= w < seen@.len() && tt == ((#[trigger] seen@[w]).0 as nat, seen@[w].1 as nat, seen@[w].2 as nat);
                    if w < old_seen.len() {
                        assert(seen@[w] == old_seen[w]);
                        assert(old_set.contains(tt));
                    }
                }
            }
        }
        j += 1;
    }
    assert(sorted@.skip(j as int) =~= Seq::<FormatterOperation>::empty());
    result
}


proof fn lemma_kind_name(op: FormatterOperation)
    ensures
        op.kind_name_spec().len() >= 10,
        forall|i: int| 0 <= i < op.kind_name_spec().len() ==> #[trigger] op.kind_name_spec()[i] != '-',
{
}

proof fn lemma_key_split(name: Seq<char>, a: Seq<char>, b: Seq<char>)
    requires
        forall|i: int| 0 <= i < name.len() ==> #[trigger] name[i] != '-',
    ensures
        crate::text::first_index(name + seq!['-'] + a + seq!['-'] + b, '-') == name.len(),
        (name + seq!['-'] + a + seq!['-'] + b).take(name.len() as int) == name,
        (name + seq!['-'] + a + seq!['-'] + b).skip(name.len() as int + 1) == a + seq!['-'] + b,
{
    let k = name + seq!['-'] + a + seq!['-'] + b;
    assert forall|j: int| 0 <= j < name.len() implies k[j] != '-' by {
        assert(k[j] == name[j]);
    }
    assert(k[name.len() as int] == '-');
    crate::text::lemma_first_index_char(k, '-', name.len() as int);
    assert(k.take(name.len() as int) =~= name);
    assert(k.skip(name.len() as int + 1) =~= a + seq!['-'] + b);
}

proof fn lemma_pair_split(a: Seq<char>, b: Seq<char>)
    requires
        forall|i: int| 0 <= i < a.len() ==> #[trigger] a[i] != '-',
    ensures
        crate::text::first_index(a + seq!['-'] + b, '-') == a.len(),
        (a + seq!['-'] + b).take(a.len() as int) == a,
        (a + seq!['-'] + b).skip(a.len() as int + 1) == b,
{
    let k = a + seq!['-'] + b;
    assert forall|j: int| 0 <= j < a.len() implies k[j] != '-' by {
        assert(k[j] == a[j]);
    }
    assert(k[a.len() as int] == '-');
    crate::text::lemma_first_index_char(k, '-', a.len() as int);
    assert(k.take(a.len() as int) =~= a);
    assert(k.skip(a.len() as int + 1) =~= b);
}

/// Two operations have the same de-duplication key exactly when they have
/// the same type, start line and end line.
pub proof fn lemma_dedup_key_identifies(a: FormatterOperation, b: FormatterOperation)
    ensures
        (a.dedup_key_spec() == b.dedup_key_spec()) <==> (op_key(a) == op_key(b)),
{
    lemma_kind_name(a);
    lemma_kind_name(b);
    crate::types::lemma_decimal_digits(a.start_spec());
    crate::types::lemma_decimal_digits(b.start_spec());
    let na = a.kind_name_spec();
    let nb = b.kind_name_spec();
    let sa = decimal(a.start_spec());
    let sb = decimal(b.start_spec());
    let ea = decimal(a.end_spec());
    let eb = decimal(b.end_spec());
    assert(a.dedup_key_spec() == na + seq!['-'] + sa + seq!['-'] + ea);
    assert(b.dedup_key_spec() == nb + seq!['-'] + sb + seq!['-'] + eb);
    if a.dedup_key_spec() == b.dedup_key_spec() {
        let k = a.dedup_key_spec();
        lemma_key_split(na, sa, ea);
        lemma_key_split(nb, sb, eb);
        assert(na.len() == nb.len());
        assert(na == nb);
        assert(kind_index(a) == kind_index(b)) by {
            if kind_index(a) != kind_index(b) {
                assert(na != nb) by {
                    if na.len() == nb.len() {
                        assert(na[0] != nb[0] || na[3] != nb[3] || na[7] != nb[7]);
                    }
                }
            }
        }
        assert forall|i: int| 0 <= i < sa.len() implies #[trigger] sa[i] != '-' by {
            assert('0' <= sa[i] <= '9');
        }
        assert forall|i: int| 0 <= i < sb.len() implies #[trigger] sb[i] != '-' by {
            assert('0' <= sb[i] <= '9');
        }
        lemma_pair_split(sa, ea);
        lemma_pair_split(sb, eb);
        assert(sa + seq!['-'] + ea == sb + seq!['-'] + eb);
        assert(sa == sb);
        assert(ea == eb);
        crate::types::lemma_decimal_injective(a.start_spec(), b.start_spec());
        crate::types::lemma_decimal_injective(a.end_spec(), b.end_spec());
    }
}


// ---------------------------------------------------------------------------
// Operation values
// ---------------------------------------------------------------------------

/// What an operation is, with its texts as character sequences.
pub enum OpView {
    Insert(nat, Seq<char>),
    Replace(nat, nat, Seq<Seq<char>>),
    Indent(nat, Seq<char>),
    FixIndent(nat, Seq<char>),
    ReplaceHtml(nat, nat, Seq<char>),
}

pub open spec fn op_view(op: FormatterOperation) -> OpView {
    match op {
        FormatterOperation::InsertLine { start_line, content } => OpView::Insert(start_line as nat, content@),
        FormatterOperation::ReplaceLines { start_line, end_line, lines } => OpView::Replace(
            start_line as nat,
            end_line as nat,
            sv(lines@),
        ),
        FormatterOperation::IndentLine { start_line, indent } => OpView::Indent(start_line as nat, indent@),
        FormatterOperation::FixListIndent { start_line, indent } => OpView::FixIndent(start_line as nat, indent@),
        FormatterOperation::ReplaceHtmlBlock { start_line, end_line, content } => OpView::ReplaceHtml(
            start_line as nat,
            end_line as nat,
            content@,
        ),
    }
}

pub open spec fn views(ops: Seq<FormatterOperation>) -> Seq<OpView> {
    ops.map_values(|o: FormatterOperation| op_view(o))
}

/// Range views never end before they start.
pub open spec fn view_wf(v: OpView) -> bool {
    match v {
        OpView::Replace(s, e, _) => s <= e,
        OpView::ReplaceHtml(s, e, _) => s <= e,
        _ => true,
    }
}

pub open spec fn views_wf(vs: Seq<OpView>) -> bool {
    forall|i: int| 0 <= i < vs.len() ==> view_wf(#[trigger] vs[i])
}

pub proof fn lemma_views_wf(ops: Seq<FormatterOperation>)
    requires
        views_wf(views(ops)),
    ensures
        ops_wf(ops),
{
    assert forall|i: int| 0 <= i < ops.len() implies op_wf(#[trigger] ops[i]) by {
        assert(view_wf(views(ops)[i]));
    }
}

/// Appending an operation appends its view.
pub proof fn lemma_views_push(ops: Seq<FormatterOperation>, op: FormatterOperation)
    ensures
        views(ops.push(op)) == views(ops).push(op_view(op)),
{
    assert(views(ops.push(op)) =~= views(ops).push(op_view(op)));
}

/// Push an operation onto an operation list.
pub fn push_op(out: &mut Vec<FormatterOperation>, op: FormatterOperation)
    ensures
        views(final(out)@) == views(old(out)@).push(op_view(op)),
        views_wf(views(old(out)@)) && view_wf(op_view(op)) ==> views_wf(views(final(out)@)),
{
    proof { lemma_views_push(out@, op); }
    out.push(op);
}


// ---------------------------------------------------------------------------
// The application step depends on the operations' views alone
// ---------------------------------------------------------------------------

/// Two operations with the same view have the same lines, kind and effect.
proof fn lemma_same_view(a: FormatterOperation, b: FormatterOperation, ls: Seq<Seq<char>>)
    requires
        op_view(a) == op_view(b),
    ensures
        a.start_spec() == b.start_spec(),
        a.end_spec() == b.end_spec(),
        a.is_replacement() == b.is_replacement(),
        priority(a) == priority(b),
        op_key(a) == op_key(b),
        apply_op_spec(ls, a) == apply_op_spec(ls, b),
{
    match a {
        FormatterOperation::InsertLine { .. } => { assert(b is InsertLine); }
        FormatterOperation::ReplaceLines { .. } => { assert(b is ReplaceLines); }
        FormatterOperation::IndentLine { .. } => { assert(b is IndentLine); }
        FormatterOperation::FixListIndent { .. } => { assert(b is FixListIndent); }
        FormatterOperation::ReplaceHtmlBlock { .. } => { assert(b is ReplaceHtmlBlock); }
    }
}

proof fn lemma_views_index(s1: Seq<FormatterOperation>, s2: Seq<FormatterOperation>, i: int)
    requires
        views(s1) == views(s2),
        0 <= i < s1.len(),
    ensures
        s1.len() == s2.len(),
        op_view(s1[i]) == op_view(s2[i]),
{
    assert(views(s1).len() == s1.len());
    assert(views(s2).len() == s2.len());
    assert(views(s1)[i] == op_view(s1[i]));
    assert(views(s2)[i] == op_view(s2[i]));
}

proof fn lemma_views_parts(s: Seq<FormatterOperation>, t: Seq<FormatterOperation>)
    ensures
        views(s + t) == views(s) + views(t),
        s.len() > 0 ==> views(s.drop_first()) == views(s).drop_first(),
        s.len() > 0 ==> views(s.drop_last()) == views(s).drop_last(),
        s.len() > 0 ==> views(seq![s[0]]) == seq![op_view(s[0])],
{
    assert(views(s + t) =~= views(s) + views(t));
    if s.len() > 0 {
        assert(views(s.drop_first()) =~= views(s).drop_first());
        assert(views(s.drop_last()) =~= views(s).drop_last());
        assert(views(seq![s[0]]) =~= seq![op_view(s[0])]);
    }
}

proof fn lemma_keep_if_views(
    s1: Seq<FormatterOperation>,
    s2: Seq<FormatterOperation>,
    p1: spec_fn(FormatterOperation) -> bool,
    p2: spec_fn(FormatterOperation) -> bool,
)
    requires
        views(s1) == views(s2),
        forall|i: int| 0 <= i < s1.len() ==> p1(#[trigger] s1[i]) == p2(s2[i]),
    ensures
        views(keep_if(s1, p1)) == views(keep_if(s2, p2)),
    decreases s1.len(),
{
    if s1.len() > 0 {
        lemma_views_index(s1, s2, 0);
        lemma_views_parts(s1, s1);
        lemma_views_parts(s2, s2);
        assert forall|i: int| 0 <= i < s1.drop_first().len() implies p1(#[trigger] s1.drop_first()[i]) == p2(s2.drop_first()[i]) by {
            assert(s1.drop_first()[i] == s1[i + 1]);
            assert(s2.drop_first()[i] == s2[i + 1]);
        }
        lemma_keep_if_views(s1.drop_first(), s2.drop_first(), p1, p2);
        assert(p1(s1[0]) == p2(s2[0]));
        let h1 = if p1(s1[0]) { seq![s1[0]] } else { Seq::<FormatterOperation>::empty() };
        let h2 = if p2(s2[0]) { seq![s2[0]] } else { Seq::<FormatterOperation>::empty() };
        lemma_views_parts(h1, keep_if(s1.drop_first(), p1));
        lemma_views_parts(h2, keep_if(s2.drop_first(), p2));
        assert(views(h1) == views(h2)) by {
            if p1(s1[0]) {
                lemma_views_parts(h1, h1);
                lemma_views_parts(h2, h2);
            } else {
                assert(views(h1) =~= Seq::<OpView>::empty());
                assert(views(h2) =~= Seq::<OpView>::empty());
            }
        }
    } else {
        assert(views(s2).len() == 0);
        assert(views(keep_if(s1, p1)) =~= views(keep_if(s2, p2)));
    }
}

proof fn lemma_overlapped_views(o1: Seq<FormatterOperation>, o2: Seq<FormatterOperation>, b1: FormatterOperation, b2: FormatterOperation)
    requires
        views(o1) == views(o2),
        op_view(b1) == op_view(b2),
    ensures
        overlapped_in(o1, b1) == overlapped_in(o2, b2),
        inside_replaced(b1, o1) == inside_replaced(b2, o2),
{
    lemma_same_view(b1, b2, Seq::empty());
    if overlapped_in(o1, b1) {
        let j = choose|j: int| 0 <= j < o1.len() && strictly_inside(#[trigger] o1[j], b1);
        lemma_views_index(o1, o2, j);
        lemma_same_view(o1[j], o2[j], Seq::empty());
        assert(strictly_inside(o2[j], b2));
    }
    if overlapped_in(o2, b2) {
        let j = choose|j: int| 0 <= j < o2.len() && strictly_inside(#[trigger] o2[j], b2);
        lemma_views_index(o2, o1, j);
        lemma_same_view(o1[j], o2[j], Seq::empty());
        assert(strictly_inside(o1[j], b1));
    }
    if inside_replaced(b1, o1) {
        let j = choose|j: int| 0 <= j < o1.len() && (#[trigger] o1[j]).is_replacement() && o1[j].start_spec()
            <= b1.start_spec() <= o1[j].end_spec();
        lemma_views_index(o1, o2, j);
        lemma_same_view(o1[j], o2[j], Seq::empty());
        assert(o2[j].is_replacement());
    }
    if inside_replaced(b2, o2) {
        let j = choose|j: int| 0 <= j < o2.len() && (#[trigger] o2[j]).is_replacement() && o2[j].start_spec()
            <= b2.start_spec() <= o2[j].end_spec();
        lemma_views_index(o2, o1, j);
        lemma_same_view(o1[j], o2[j], Seq::empty());
        assert(o1[j].is_replacement());
    }
}

proof fn lemma_ins_pos_views(t1: Seq<FormatterOperation>, t2: Seq<FormatterOperation>, x1: FormatterOperation, x2: FormatterOperation)
    requires
        views(t1) == views(t2),
        op_view(x1) == op_view(x2),
    ensures
        ins_pos(t1, x1) == ins_pos(t2, x2),
    decreases t1.len(),
{
    if t1.len() > 0 {
        lemma_views_index(t1, t2, 0);
        lemma_same_view(t1[0], t2[0], Seq::empty());
        lemma_same_view(x1, x2, Seq::empty());
        lemma_views_parts(t1, t1);
        lemma_views_parts(t2, t2);
        lemma_ins_pos_views(t1.drop_first(), t2.drop_first(), x1, x2);
    } else {
        assert(views(t2).len() == 0);
    }
}

proof fn lemma_sorted_views(s1: Seq<FormatterOperation>, s2: Seq<FormatterOperation>)
    requires
        views(s1) == views(s2),
    ensures
        views(sorted_ops(s1)) == views(sorted_ops(s2)),
    decreases s1.len(),
{
    if s1.len() > 0 {
        lemma_views_index(s1, s2, s1.len() - 1);
        lemma_views_parts(s1, s1);
        lemma_views_parts(s2, s2);
        lemma_sorted_views(s1.drop_last(), s2.drop_last());
        let t1 = sorted_ops(s1.drop_last());
        let t2 = sorted_ops(s2.drop_last());
        lemma_ins_pos_views(t1, t2, s1.last(), s2.last());
        lemma_ins_pos_bound(t1, s1.last());
        let i = ins_pos(t1, s1.last()) as int;
        assert(views(t1.insert(i, s1.last())) =~= views(t1).insert(i, op_view(s1.last())));
        assert(views(t2.insert(i, s2.last())) =~= views(t2).insert(i, op_view(s2.last())));
    } else {
        assert(views(s2).len() == 0);
    }
}

proof fn lemma_apply_fold_views(ls: Seq<Seq<char>>, o1: Seq<FormatterOperation>, o2: Seq<FormatterOperation>, seen: Set<(nat, nat, nat)>)
    requires
        views(o1) == views(o2),
    ensures
        apply_fold(ls, o1, seen) == apply_fold(ls, o2, seen),
    decreases o1.len(),
{
    if o1.len() > 0 {
        lemma_views_index(o1, o2, 0);
        lemma_same_view(o1[0], o2[0], ls);
        lemma_views_parts(o1, o1);
        lemma_views_parts(o2, o2);
        lemma_apply_fold_views(ls, o1.drop_first(), o2.drop_first(), seen);
        lemma_apply_fold_views(apply_op_spec(ls, o1[0]), o1.drop_first(), o2.drop_first(), seen.insert(op_key(o1[0])));
    } else {
        assert(views(o2).len() == 0);
    }
}

/// The application step depends on the operations only through their views:
/// operation lists with the same views give the same lines.
pub proof fn lemma_applied_views(ls: Seq<Seq<char>>, o1: Seq<FormatterOperation>, o2: Seq<FormatterOperation>)
    requires
        views(o1) == views(o2),
    ensures
        applied(ls, o1) == applied(ls, o2),
{
    assert forall|i: int| 0 <= i < o1.len() implies not_overlapped_pred(o1)(#[trigger] o1[i]) == not_overlapped_pred(o2)(o2[i]) by {
        lemma_views_index(o1, o2, i);
        lemma_overlapped_views(o1, o2, o1[i], o2[i]);
    }
    lemma_keep_if_views(o1, o2, not_overlapped_pred(o1), not_overlapped_pred(o2));
    let f1 = without_overlapped(o1);
    let g1 = without_overlapped(o2);
    assert forall|i: int| 0 <= i < f1.len() implies not_inside_pred(f1)(#[trigger] f1[i]) == not_inside_pred(g1)(g1[i]) by {
        lemma_views_index(f1, g1, i);
        lemma_overlapped_views(f1, g1, f1[i], g1[i]);
    }
    lemma_keep_if_views(f1, g1, not_inside_pred(f1), not_inside_pred(g1));
    lemma_sorted_views(keep_if(f1, not_inside_pred(f1)), keep_if(g1, not_inside_pred(g1)));
    lemma_apply_fold_views(ls, sorted_ops(keep_if(f1, not_inside_pred(f1))), sorted_ops(keep_if(g1, not_inside_pred(g1))), Set::empty());
}

} // verus!
