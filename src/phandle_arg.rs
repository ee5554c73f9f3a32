use vstd::prelude::*;

use fdt::node::FdtNode;

use fdt::Fdt;

use crate::error::OfError;
use crate::parsing::be_u32_of;
use crate::phandle_list::{
    advance, count_value, count_value_spec, entry_len, holds_args, lemma_advance_push,
    lemma_recorded_push, lemma_walk_is_nth, lemma_walk_last_step, nth_spec, read_args,
    read_phandle, recorded_by, step_spec, drain_spec, step_with, whole_walk, MAX_PHANDLE_ARGS,
};
use crate::tree::{node_blob, phandle_target, prop_bytes, property_value, MachineFdt};

verus! {

/// One resolved phandle entry: the node whose property held the list, and
/// the argument cells that followed the phandle.
pub struct OfPhandleArgs<'b, 'a> {
    pub np: FdtNode<'b, 'a>,
    pub args_count: usize,
    pub args: [u32; MAX_PHANDLE_ARGS],
}

impl<'b, 'a> OfPhandleArgs<'b, 'a> {
    /// A record of `args_count` cells held in `args`, for an entry of a list of `node`.
    pub fn new(node: FdtNode<'b, 'a>, args_count: usize, args: [u32; MAX_PHANDLE_ARGS]) -> (r: Self)
        ensures
            r.np == node,
            r.args_count == args_count,
            r.args == args,
    {
        OfPhandleArgs { np: node, args_count, args }
    }
}

/// Whether `r`, the answer of one step over a list property of `np`, is what
/// the list model `s` says.
pub open spec fn entry_matches<'b, 'a>(
    r: Result<Option<OfPhandleArgs<'b, 'a>>, OfError>,
    s: Result<Option<(u32, Seq<u32>)>, OfError>,
    np: FdtNode<'b, 'a>,
) -> bool {
    match s {
        Err(e) => r == Err::<Option<OfPhandleArgs<'b, 'a>>, OfError>(e),
        Ok(None) => r == Ok::<Option<OfPhandleArgs<'b, 'a>>, OfError>(None),
        Ok(Some((ph, args))) => r is Ok && r->Ok_0 is Some && {
            let a = r->Ok_0->0;
            &&& a.np == np
            &&& a.args_count == args.len()
            &&& holds_args(a.args@, args)
        },
    }
}

/// Whether `a` is the record of the entry `e` of a list property of `np`.
pub open spec fn record_holds<'b, 'a>(a: OfPhandleArgs<'b, 'a>, e: (u32, Seq<u32>), np: FdtNode<'b, 'a>) -> bool {
    &&& a.np == np
    &&& a.args_count == e.1.len()
    &&& holds_args(a.args@, e.1)
}

/// A record is fixed by the entry it holds: two walks of one list under one
/// lookup, each draining it from the start, yield equal records.
pub proof fn lemma_records_determined<'b, 'a>(
    a: OfPhandleArgs<'b, 'a>,
    b: OfPhandleArgs<'b, 'a>,
    e: (u32, Seq<u32>),
    np: FdtNode<'b, 'a>,
)
    requires
        record_holds(a, e, np),
        record_holds(b, e, np),
    ensures
        a.np == b.np,
        a.args_count == b.args_count,
        a.args@ == b.args@,
{
    assert forall|i: int| 0 <= i < MAX_PHANDLE_ARGS implies a.args@[i] == b.args@[i] by {
        if i < e.1.len() {
            assert(a.args@.take(e.1.len() as int)[i] == b.args@.take(e.1.len() as int)[i]);
        }
    }
    assert(a.args@ =~= b.args@);
}

/// The cell count that the value of a cell-count property gives; `None`
/// stands for a node without that property.
pub fn cell_count_from(value: Option<&[u8]>) -> (r: Result<usize, OfError>)
    ensures
        match value {
            None => r == Err::<usize, OfError>(OfError::MissingCellCountProperty),
            Some(v) => match count_value_spec(v@) {
                Some(n) => r == Ok::<usize, OfError>(n),
                None => r == Err::<usize, OfError>(OfError::MissingCellCountProperty),
            },
        },
{
    match value {
        None => Err(OfError::MissingCellCountProperty),
        Some(v) => match count_value(v) {
            Some(n) => Ok(n),
            None => Err(OfError::MissingCellCountProperty),
        },
    }
}

/// The name a cell-count property is looked up by, if any.
pub open spec fn name_of(c: Option<&str>) -> Option<Seq<char>> {
    match c {
        Some(s) => Some(s@),
        None => None,
    }
}

/// The cell count of the entry whose phandle is `ph`: `fixed` without a
/// property name, else the count that property of the phandle's node holds.
pub open spec fn lookup_count(f: Fdt, ph: u32, cells: Option<Seq<char>>, fixed: nat) -> Result<nat, OfError> {
    match phandle_target(f, ph) {
        None => Err(OfError::UnresolvedPhandle),
        Some(t) => match cells {
            None => Ok(fixed),
            Some(name) => match prop_bytes(t, name) {
                None => Err(OfError::MissingCellCountProperty),
                Some(v) => match count_value_spec(v) {
                    Some(n) => Ok(n as nat),
                    None => Err(OfError::MissingCellCountProperty),
                },
            },
        },
    }
}

/// Walks a list property of phandles, each followed by its argument cells.
pub struct OfPhandleIterator<'m, 'a> {
    fdt: &'m MachineFdt<'a>,
    np: FdtNode<'m, 'a>,
    cells_name: Option<&'m str>,
    cell_count: usize,
    list: &'a [u8],
    curr_index: usize,
}

impl<'m, 'a> OfPhandleIterator<'m, 'a> {
    /// The bytes of the list property.
    pub closed spec fn list(&self) -> Seq<u8> {
        self.list@
    }

    /// The byte offset of the next entry.
    pub closed spec fn offset(&self) -> nat {
        self.curr_index as nat
    }

    /// What is left of the list.
    pub open spec fn remaining(&self) -> Seq<u8> {
        self.list().skip(self.offset() as int)
    }

    /// The node that holds the list.
    pub closed spec fn node(&self) -> FdtNode<'m, 'a> {
        self.np
    }

    /// Whether cell counts come from a property of each target node.
    pub closed spec fn counts_by_name(&self) -> bool {
        self.cells_name is Some
    }

    /// The name of the cell-count property, if counts are read by name.
    pub closed spec fn cells_spec(&self) -> Option<Seq<char>> {
        name_of(self.cells_name)
    }

    /// The cell count of every entry when counts are not read from the targets.
    pub closed spec fn fixed_count(&self) -> nat {
        self.cell_count as nat
    }

    /// The tree phandles are resolved in.
    pub closed spec fn tree(&self) -> Fdt<'a> {
        self.fdt.tree()
    }

    /// The cell count of each phandle, or why it has none.
    pub open spec fn lookup(&self) -> spec_fn(u32) -> Result<nat, OfError> {
        |ph: u32| lookup_count(self.tree(), ph, self.cells_spec(), self.fixed_count())
    }

    /// The position lies within the list and the tree is well formed.
    pub closed spec fn wf(&self) -> bool {
        &&& self.curr_index <= self.list@.len()
        &&& self.fdt.wf()
    }

    /// Whether `after` is this walk with nothing changed but its position.
    pub open spec fn same_walk(&self, after: &Self) -> bool {
        &&& after.wf()
        &&& after.list() == self.list()
        &&& after.node() == self.node()
        &&& after.counts_by_name() == self.counts_by_name()
        &&& after.cells_spec() == self.cells_spec()
        &&& after.tree() == self.tree()
        &&& after.fixed_count() == self.fixed_count()
    }

    /// What holds of every entry the walk yields, whatever the lookups found.
    pub open spec fn found_entry(&self, a: OfPhandleArgs<'m, 'a>) -> bool {
        &&& a.np == self.node()
        &&& a.args_count <= MAX_PHANDLE_ARGS
        &&& a.args@.len() == MAX_PHANDLE_ARGS
        &&& !self.counts_by_name() ==> a.args_count == self.fixed_count()
    }

    /// Starts a walk over the property `list_name` of `node`, at its first
    /// entry; `None` when the node has no such property. With `cells_name`
    /// each entry's cell count is read from that property of the node its
    /// phandle names, else every entry has `cell_count` cells.
    pub fn new(
        fdt: &'m MachineFdt<'a>,
        node: FdtNode<'m, 'a>,
        list_name: &str,
        cells_name: Option<&'m str>,
        cell_count: usize,
    ) -> (r: Option<Self>)
        requires
            fdt.wf(),
            node_blob(node) == fdt.bytes(),
        ensures
            r is None <==> prop_bytes(node, list_name@) is None,
            r is Some ==> {
                let it = r->0;
                &&& it.wf()
                &&& it.offset() == 0
                &&& it.node() == node
                &&& it.counts_by_name() == (cells_name is Some)
                &&& it.fixed_count() == cell_count
                &&& it.list() == prop_bytes(node, list_name@)->0
                &&& it.cells_spec() == name_of(cells_name)
                &&& it.tree() == fdt.tree()
            },
    {
        match property_value(node, list_name) {
            None => None,
            Some(list) => Some(
                OfPhandleIterator {
                    fdt,
                    np: node,
                    cells_name,
                    cell_count,
                    list,
                    curr_index: 0,
                },
            ),
        }
    }

    /// Decodes the next entry: `Ok(None)` at the end of the list, an error
    /// when the phandle names no node, when its cell count cannot be found,
    /// or when the entry does not fit.
    pub fn next(&mut self) -> (r: Result<Option<OfPhandleArgs<'m, 'a>>, OfError>)
        requires
            old(self).wf(),
        ensures
            old(self).same_walk(final(self)),
            entry_matches(r, step_spec(old(self).remaining(), old(self).lookup()), old(self).node()),
            r is Ok && r->Ok_0 is Some ==> final(self).offset() == old(self).offset() + 4 + 4
                * r->Ok_0->0.args_count,
            !(r is Ok && r->Ok_0 is Some) ==> final(self).offset() == old(self).offset(),
            r is Ok && r->Ok_0 is Some ==> old(self).found_entry(r->Ok_0->0),
    {
        let ghost rem = self.remaining();
        let ph = match read_phandle(self.list, self.curr_index) {
            None => return Ok(None),
            Some(ph) => ph,
        };
        let ghost c = self.lookup()(ph);
        let target = match self.fdt.find_phandle(ph) {
            None => {
                assert(step_spec(rem, self.lookup()) == Err::<Option<(u32, Seq<u32>)>, OfError>(
                    OfError::UnresolvedPhandle,
                ));
                return Err(OfError::UnresolvedPhandle);
            },
            Some(t) => t,
        };
        let count = match self.cells_name {
            None => self.cell_count,
            Some(name) => match cell_count_from(property_value(target, name)) {
                Ok(c) => c,
                Err(e) => {
                    assert(step_spec(rem, self.lookup()) == Err::<Option<(u32, Seq<u32>)>, OfError>(e));
                    return Err(e);
                },
            },
        };
        assert(c == Ok::<nat, OfError>(count as nat));
        let args = match read_args(self.list, self.curr_index, count) {
            Ok(a) => a,
            Err(e) => return Err(e),
        };
        let n = self.list.len();
        assert(self.curr_index + 4 + 4 * count <= n);
        self.curr_index = self.curr_index + 4 + 4 * count;
        Ok(Some(OfPhandleArgs::new(self.np, count, args)))
    }

    /// Skips `index` entries and decodes the one after them; `Ok(None)` when
    /// the list ends first. The first error met is handed back.
    pub fn nth(&mut self, index: usize) -> (r: Result<Option<OfPhandleArgs<'m, 'a>>, OfError>)
        requires
            old(self).wf(),
        ensures
            old(self).same_walk(final(self)),
            entry_matches(r, nth_spec(old(self).remaining(), old(self).lookup(), index as nat), old(self).node()),
            r is Ok && r->Ok_0 is Some ==> old(self).found_entry(r->Ok_0->0),
    {
        let ghost start = *self;
        let ghost cnt = start.lookup();
        let ghost mut counts: Seq<Result<nat, OfError>> = Seq::empty();
        let mut i: usize = 0;
        loop
            invariant
                start == *old(self),
                cnt == start.lookup(),
                start.same_walk(self),
                start.wf(),
                i <= index,
                counts.len() == i,
                self.offset() >= start.offset(),
                advance(start.remaining(), counts) == Some((self.offset() - start.offset()) as nat),
                recorded_by(start.remaining(), counts, cnt),
            decreases index - i,
        {
            let ghost before = *self;
            let ghost o = (before.offset() - start.offset()) as nat;
            let ghost rem = before.remaining();
            let ghost c = if rem.len() >= 4 {
                cnt(be_u32_of(rem, 0))
            } else {
                Ok(0)
            };
            proof {
                assert(start.remaining().skip(o as int) =~= rem);
                assert(self.lookup() == cnt);
                assert(step_with(rem, c) == step_spec(rem, cnt));
                lemma_recorded_push(start.remaining(), counts, c, cnt);
            }
            let e = self.next();
            let done = match &e {
                Ok(Some(_)) => i == index,
                _ => true,
            };
            if done {
                proof {
                    lemma_walk_last_step(start.remaining(), counts, c, index as nat);
                    assert(counts.push(c).drop_last() =~= counts);
                    lemma_walk_is_nth(start.remaining(), counts.push(c), cnt, index as nat);
                }
                return e;
            }
            proof {
                lemma_advance_push(start.remaining(), counts, c);
                counts = counts.push(c);
            }
            i = i + 1;
        }
    }

    /// Decodes every entry left, in order, up to the end of the list; the
    /// first error met is handed back instead.
    pub fn drain_entries(&mut self) -> (r: Result<Vec<OfPhandleArgs<'m, 'a>>, OfError>)
        requires
            old(self).wf(),
        ensures
            old(self).same_walk(final(self)),
            match drain_spec(old(self).remaining(), old(self).lookup()) {
                Err(e) => r == Err::<Vec<OfPhandleArgs<'m, 'a>>, OfError>(e),
                Ok(es) => r is Ok && r->Ok_0@.len() == es.len() && forall|k: int|
                    0 <= k < es.len() ==> record_holds(#[trigger] r->Ok_0@[k], es[k], old(self).node()),
            },
    {
        let ghost start = *self;
        let ghost cnt = start.lookup();
        let ghost mut done: Seq<(u32, Seq<u32>)> = Seq::empty();
        let mut out: Vec<OfPhandleArgs<'m, 'a>> = Vec::new();
        loop
            invariant
                start == *old(self),
                cnt == start.lookup(),
                start.same_walk(self),
                start.wf(),
                out@.len() == done.len(),
                forall|k: int| 0 <= k < out@.len() ==> record_holds(#[trigger] out@[k], done[k], start.node()),
                match drain_spec(self.remaining(), cnt) {
                    Ok(rest) => drain_spec(start.remaining(), cnt) == Ok::<Seq<(u32, Seq<u32>)>, OfError>(done + rest),
                    Err(e) => drain_spec(start.remaining(), cnt) == Err::<Seq<(u32, Seq<u32>)>, OfError>(e),
                },
            decreases self.list().len() - self.offset(),
        {
            let ghost rem = self.remaining();
            proof {
                assert(self.lookup() == cnt);
            }
            match self.next() {
                Err(e) => {
                    return Err(e);
                },
                Ok(None) => {
                    assert(done + Seq::<(u32, Seq<u32>)>::empty() =~= done);
                    return Ok(out);
                },
                Ok(Some(a)) => {
                    let ghost e = step_spec(rem, cnt)->Ok_0->0;
                    proof {
                        assert(self.remaining() =~= rem.skip(entry_len(e.1) as int));
                        if let Ok(rest) = drain_spec(self.remaining(), cnt) {
                            assert(done.push(e) + rest =~= done + (seq![e] + rest));
                        }
                        done = done.push(e);
                    }
                    out.push(a);
                },
            }
        }
    }
}

} // verus!
