//! Looking for peers to fetch a magnet link's metadata from: the addresses
//! learned so far, which of them were tried, and which to try next.
use vstd::prelude::*;
use crate::engine::Endpoint;

verus! {

/// `known` with each address of `found` added, in order, unless it is there
/// already.
pub open spec fn add_new(known: Seq<Endpoint>, found: Seq<Endpoint>) -> Seq<Endpoint>
    decreases found.len(),
{
    if found.len() == 0 {
        known
    } else {
        let before = add_new(known, found.drop_last());
        if before.contains(found.last()) {
            before
        } else {
            before.push(found.last())
        }
    }
}

/// The addresses of `known` not in `tried`, in order.
pub open spec fn untried(known: Seq<Endpoint>, tried: Seq<Endpoint>) -> Seq<Endpoint>
    decreases known.len(),
{
    if known.len() == 0 {
        known
    } else {
        let before = untried(known.drop_last(), tried);
        if tried.contains(known.last()) {
            before
        } else {
            before.push(known.last())
        }
    }
}

/// What to try next: the addresses not tried yet, or all of them again
/// when every one was tried.
pub open spec fn batch_of(known: Seq<Endpoint>, tried: Seq<Endpoint>) -> Seq<Endpoint> {
    if untried(known, tried).len() > 0 {
        untried(known, tried)
    } else {
        known
    }
}

proof fn lemma_add_new(known: Seq<Endpoint>, found: Seq<Endpoint>)
    ensures
        forall|a: Endpoint| #[trigger] add_new(known, found).contains(a) <==> (known.contains(a) || found.contains(a)),
        known.no_duplicates() ==> add_new(known, found).no_duplicates(),
    decreases found.len(),
{
    if found.len() > 0 {
        let f = found.drop_last();
        lemma_add_new(known, f);
        let before = add_new(known, f);
        assert forall|a: Endpoint| #[trigger] add_new(known, found).contains(a) <==> (known.contains(a) || found.contains(a)) by {
            if f.contains(a) {
                let j = choose|j: int| 0 <= j < f.len() && f[j] == a;
                assert(found[j] == a);
            }
            if found.contains(a) && !f.contains(a) {
                let j = choose|j: int| 0 <= j < found.len() && found[j] == a;
                if j < f.len() {
                    assert(f[j] == a);
                }
            }
            if !before.contains(found.last()) {
                assert(before.push(found.last()).last() == found.last());
                if before.push(found.last()).contains(a) && a != found.last() {
                    let j = choose|j: int| 0 <= j < before.push(found.last()).len() && before.push(found.last())[j] == a;
                    assert(before[j] == a);
                }
                if before.contains(a) {
                    let j = choose|j: int| 0 <= j < before.len() && before[j] == a;
                    assert(before.push(found.last())[j] == a);
                }
            }
        }
    }
}

proof fn lemma_untried(known: Seq<Endpoint>, tried: Seq<Endpoint>)
    ensures
        forall|a: Endpoint| #[trigger] untried(known, tried).contains(a) <==> (known.contains(a) && !tried.contains(a)),
    decreases known.len(),
{
    if known.len() > 0 {
        let k = known.drop_last();
        lemma_untried(k, tried);
        let before = untried(k, tried);
        assert forall|a: Endpoint| #[trigger] untried(known, tried).contains(a) <==> (known.contains(a) && !tried.contains(a)) by {
            if k.contains(a) {
                let j = choose|j: int| 0 <= j < k.len() && k[j] == a;
                assert(known[j] == a);
            }
            if known.contains(a) && !k.contains(a) {
                let j = choose|j: int| 0 <= j < known.len() && known[j] == a;
                if j < k.len() {
                    assert(k[j] == a);
                }
            }
            if !tried.contains(known.last()) {
                assert(before.push(known.last()).last() == known.last());
                if before.push(known.last()).contains(a) && a != known.last() {
                    let j = choose|j: int| 0 <= j < before.push(known.last()).len() && before.push(known.last())[j] == a;
                    assert(before[j] == a);
                }
                if before.contains(a) {
                    let j = choose|j: int| 0 <= j < before.len() && before[j] == a;
                    assert(before.push(known.last())[j] == a);
                }
            }
        }
    }
}

/// Learning keeps each address once and loses none: what is learned holds
/// exactly the addresses known before and those found.
pub proof fn law_learning_keeps_addresses_once(known: Seq<Endpoint>, found: Seq<Endpoint>)
    requires
        known.no_duplicates(),
    ensures
        add_new(known, found).no_duplicates(),
        forall|a: Endpoint| #[trigger] add_new(known, found).contains(a) <==> (known.contains(a) || found.contains(a)),
{
    lemma_add_new(known, found);
}

/// A batch tries every address that was not tried yet, and after it every
/// address learned counts as tried.
pub proof fn law_batches_cover_everything_learned(known: Seq<Endpoint>, tried: Seq<Endpoint>)
    ensures
        forall|a: Endpoint| known.contains(a) && !tried.contains(a) ==> #[trigger] batch_of(known, tried).contains(a),
        forall|a: Endpoint| known.contains(a) ==> #[trigger] add_new(tried, batch_of(known, tried)).contains(a),
{
    lemma_untried(known, tried);
    lemma_add_new(tried, batch_of(known, tried));
    assert forall|a: Endpoint| known.contains(a) implies #[trigger] add_new(tried, batch_of(known, tried)).contains(a) by {
        if !tried.contains(a) {
            assert(untried(known, tried).contains(a));
        }
    }
}

/// The addresses learned and those tried, each once, in the order met.
pub struct PeerSearch {
    known: Vec<Endpoint>,
    tried: Vec<Endpoint>,
}

impl PeerSearch {
    pub closed spec fn learned(&self) -> Seq<Endpoint> {
        self.known@
    }

    pub closed spec fn attempted(&self) -> Seq<Endpoint> {
        self.tried@
    }

    /// Nothing learned, nothing tried.
    pub fn new() -> (r: PeerSearch)
        ensures
            r.learned() == Seq::<Endpoint>::empty(),
            r.attempted() == Seq::<Endpoint>::empty(),
    {
        PeerSearch { known: Vec::new(), tried: Vec::new() }
    }

    /// The addresses learned so far.
    pub fn known(&self) -> (r: &[Endpoint])
        ensures
            r@ == self.learned(),
    {
        self.known.as_slice()
    }

    /// Whether any address was tried.
    pub fn tried_any(&self) -> (r: bool)
        ensures
            r == (self.attempted().len() > 0),
    {
        self.tried.len() > 0
    }

    /// Learns the addresses `found`.
    pub fn learn(&mut self, found: &[Endpoint])
        ensures
            final(self).learned() == add_new(old(self).learned(), found@),
            final(self).attempted() == old(self).attempted(),
    {
        add_all(&mut self.known, found);
    }

    /// Whether every address learned was tried, so that more must be found.
    pub fn exhausted(&self) -> (r: bool)
        ensures
            r == (untried(self.learned(), self.attempted()).len() == 0),
    {
        let rest = untried_of(self.known.as_slice(), self.tried.as_slice());
        rest.len() == 0
    }

    /// The addresses to try next, which count as tried from now on: those
    /// not tried yet, or all of them again when every one was tried.
    pub fn next_batch(&mut self) -> (r: Vec<Endpoint>)
        ensures
            r@ == batch_of(old(self).learned(), old(self).attempted()),
            final(self).learned() == old(self).learned(),
            final(self).attempted() == add_new(old(self).attempted(), r@),
    {
        let mut batch = untried_of(self.known.as_slice(), self.tried.as_slice());
        if batch.len() == 0 {
            batch = copy_all(self.known.as_slice());
        }
        add_all(&mut self.tried, batch.as_slice());
        batch
    }
}

/// Whether `items` holds `x`.
fn holds(items: &[Endpoint], x: Endpoint) -> (r: bool)
    ensures
        r == items@.contains(x),
{
    let mut i: usize = 0;
    while i < items.len()
        invariant
            i <= items@.len(),
            forall|j: int| 0 <= j < i ==> items@[j] != x,
        decreases items.len() - i,
    {
        if items[i] == x {
            proof {
                assert(items@[i as int] == x);
            }
            return true;
        }
        i = i + 1;
    }
    false
}

/// Adds each address of `found` to `items` unless it is there already.
fn add_all(items: &mut Vec<Endpoint>, found: &[Endpoint])
    ensures
        final(items)@ == add_new(old(items)@, found@),
{
    let mut i: usize = 0;
    while i < found.len()
        invariant
            i <= found@.len(),
            items@ == add_new(old(items)@, found@.take(i as int)),
        decreases found.len() - i,
    {
        proof {
            assert(found@.take(i + 1).drop_last() =~= found@.take(i as int));
            assert(found@.take(i + 1).last() == found@[i as int]);
        }
        if !holds(items.as_slice(), found[i]) {
            items.push(found[i]);
        }
        i = i + 1;
    }
    proof {
        assert(found@.take(found@.len() as int) =~= found@);
    }
}

/// The addresses of `known` not in `tried`.
fn untried_of(known: &[Endpoint], tried: &[Endpoint]) -> (r: Vec<Endpoint>)
    ensures
        r@ == untried(known@, tried@),
{
    let mut out: Vec<Endpoint> = Vec::new();
    let mut i: usize = 0;
    while i < known.len()
        invariant
            i <= known@.len(),
            out@ == untried(known@.take(i as int), tried@),
        decreases known.len() - i,
    {
        proof {
            assert(known@.take(i + 1).drop_last() =~= known@.take(i as int));
            assert(known@.take(i + 1).last() == known@[i as int]);
        }
        if !holds(tried, known[i]) {
            out.push(known[i]);
        }
        i = i + 1;
    }
    proof {
        assert(known@.take(known@.len() as int) =~= known@);
    }
    out
}

/// A copy of `items`.
fn copy_all(items: &[Endpoint]) -> (r: Vec<Endpoint>)
    ensures
        r@ == items@,
{
    let mut out: Vec<Endpoint> = Vec::new();
    let mut i: usize = 0;
    while i < items.len()
        invariant
            i <= items@.len(),
            out@ == items@.take(i as int),
        decreases items.len() - i,
    {
        out.push(items[i]);
        proof {
            assert(items@.take(i + 1) =~= items@.take(i as int).push(items@[i as int]));
        }
        i = i + 1;
    }
    proof {
        assert(items@.take(items@.len() as int) =~= items@);
    }
    out
}

} // verus!
