//! The outline of a trie: one row for each node but the root, parents before
//! children, with the byte that the path to the node completes.

use crate::iters::octals::{pack_step, OctalPrinter};
use crate::arena::{children_of, lemma_children_from, Arena};
use crate::trie::Trie;
use vstd::prelude::*;

verus! {

/// One row of an outline.
#[derive(Debug)]
pub struct OutlineRow {
    /// One entry for each node on the way from the root to the parent of
    /// this row's node, the root first: whether that node has more children
    /// to come, so that a bar is to be drawn below it.
    pub bars: Vec<bool>,
    /// The byte that the symbols on the way to this row's node complete with
    /// the last of them, if they complete one.
    pub byte: Option<u8>,
}

impl View for OutlineRow {
    type V = (Seq<bool>, Option<u8>);

    open spec fn view(&self) -> (Seq<bool>, Option<u8>) {
        (self.bars@, self.byte)
    }
}

/// The rows of a list, each as a mathematical value.
pub open spec fn rows_view(rows: Seq<OutlineRow>) -> Seq<(Seq<bool>, Option<u8>)> {
    rows.map_values(|row: OutlineRow| row@)
}

/// The rows for the children `rest` of the node `addr` and for everything
/// below them, depth first. `bars` are the bars of these children's rows.
/// `buf` holds the bits that the symbols on the way to `addr` have left in
/// a packer; each child feeds its own symbol to a copy of that packer.
pub open spec fn outline_rows(
    t: Arena,
    addr: int,
    rest: Seq<(int, int)>,
    bars: Seq<bool>,
    buf: Seq<bool>,
) -> Seq<(Seq<bool>, Option<u8>)>
    decreases t.len() - addr, rest.len(),
{
    if rest.len() == 0 {
        Seq::empty()
    } else {
        let (symbol, child) = rest[0];
        let (byte, kept) = pack_step(buf, symbol as u8);
        let below = if 0 <= addr < child < t.len() {
            outline_rows(t, child, children_of(t[child]), bars.push(rest.len() > 1), kept)
        } else {
            Seq::empty()
        };
        seq![(bars, byte)] + below + outline_rows(t, addr, rest.skip(1), bars, buf)
    }
}

/// The outline of a whole trie.
pub open spec fn outline_of(t: Arena) -> Seq<(Seq<bool>, Option<u8>)> {
    outline_rows(t, 0, children_of(t[0]), Seq::empty(), Seq::empty())
}

impl Trie {
    /// The outline of the trie, for showing it as a tree: the rows of all
    /// nodes but the root, depth first, children in ascending order of their
    /// symbols.
    pub fn outline(&self) -> (rows: Vec<OutlineRow>)
        requires
            self.wf(),
        ensures
            rows_view(rows@) == outline_of(self@),
    {
        let mut rows: Vec<OutlineRow> = Vec::new();
        let bars: Vec<bool> = Vec::new();
        assert(rows_view(rows@) =~= Seq::empty());
        self.outline_below(0, &bars, OctalPrinter::new(), &mut rows);
        rows
    }

    /// Adds to `rows` the rows of everything below the node at `addr`.
    fn outline_below(
        &self,
        addr: usize,
        bars: &Vec<bool>,
        printer: OctalPrinter,
        rows: &mut Vec<OutlineRow>,
    )
        requires
            self.wf(),
            addr < self@.len(),
            printer.wf(),
        ensures
            rows_view(final(rows)@) == rows_view(old(rows)@) + outline_rows(
                self@,
                addr as int,
                children_of(self@[addr as int]),
                bars@,
                printer@,
            ),
        decreases self@.len() - addr,
    {
        let ghost all = children_of(self@[addr as int]);
        let ghost whole = rows_view(rows@) + outline_rows(self@, addr as int, all, bars@, printer@);
        let count: u8 = self.childcount(addr);
        let mut iter = self.children(addr);
        let mut i: u8 = 0;
        proof {
            lemma_children_from(self@[addr as int], 0);
            assert(all.skip(0) =~= all);
        }
        loop
            invariant
                self.wf(),
                addr < self@.len(),
                printer.wf(),
                iter.wf(),
                all == children_of(self@[addr as int]),
                count == all.len(),
                i <= count,
                iter@ == all.skip(i as int),
                rows_view(rows@) + outline_rows(self@, addr as int, iter@, bars@, printer@)
                    == whole,
            ensures
                rows_view(rows@) == whole,
            decreases iter@.len(),
        {
            let ghost rest = iter@;
            let ghost before = rows_view(rows@);
            match iter.next() {
                Some((val, child)) => {
                    proof {
                        lemma_children_from(self@[addr as int], 0);
                        assert(rest[0] == all[i as int]);
                    }
                    let mut fed = printer;
                    let byte = fed.add(val);
                    rows.push(OutlineRow { bars: copy_bars(bars), byte });
                    let mut deeper = copy_bars(bars);
                    deeper.push(i < count - 1);
                    let ghost above = rows_view(rows@);
                    self.outline_below(child, &deeper, fed, rows);
                    i = i + 1;
                    proof {
                        assert(above =~= before.push((bars@, byte)));
                        assert(iter@ =~= all.skip(i as int));
                        assert(deeper@ =~= bars@.push(rest.len() > 1));
                        assert(rows_view(rows@) + outline_rows(
                            self@,
                            addr as int,
                            iter@,
                            bars@,
                            printer@,
                        ) =~= before + outline_rows(self@, addr as int, rest, bars@, printer@));
                    }
                },
                None => {
                    assert(rows_view(rows@) + Seq::empty() =~= rows_view(rows@));
                    break ;
                },
            }
        }
    }
}

/// A copy of a list of bars.
fn copy_bars(bars: &Vec<bool>) -> (copy: Vec<bool>)
    ensures
        copy@ == bars@,
{
    let mut copy: Vec<bool> = Vec::new();
    let mut i: usize = 0;
    while i < bars.len()
        invariant
            i <= bars.len(),
            copy@ == bars@.take(i as int),
        decreases bars.len() - i,
    {
        copy.push(bars[i]);
        i = i + 1;
        assert(copy@ =~= bars@.take(i as int));
    }
    assert(bars@.take(bars.len() as int) =~= bars@);
    copy
}

} // verus!
