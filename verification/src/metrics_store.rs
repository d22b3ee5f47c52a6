//! Per-server history of the most recent metrics samples.
use vstd::prelude::*;

verus! {

/// How many samples each server keeps.
pub const RING_SIZE: usize = 60;

/// One metrics sample. The percentages are IEEE 754 `f64` values carried as
/// their bit patterns (`f64::to_bits`); `None` where the metric was not read.
#[derive(Clone, Copy, Debug, PartialEq, Eq)]
pub struct MetricsSample {
    pub timestamp_ms: u64,
    pub cpu_percent_bits: Option<u64>,
    pub ram_percent_bits: Option<u64>,
    pub disk_percent_bits: Option<u64>,
}

struct ServerRing {
    server_id: String,
    samples: std::collections::VecDeque<MetricsSample>,
}

/// The history of a server after `sample` arrives: the oldest sample is
/// dropped once [`RING_SIZE`] are held.
pub open spec fn push_bounded(h: Seq<MetricsSample>, sample: MetricsSample) -> Seq<MetricsSample> {
    if h.len() >= RING_SIZE {
        h.drop_first().push(sample)
    } else {
        h.push(sample)
    }
}

/// The history held for `id` in `m`; empty for an unknown server.
pub open spec fn history_of(m: Map<Seq<char>, Seq<MetricsSample>>, id: Seq<char>) -> Seq<
    MetricsSample,
> {
    if m.contains_key(id) {
        m[id]
    } else {
        Seq::empty()
    }
}

spec fn rings_map(s: Seq<ServerRing>) -> Map<Seq<char>, Seq<MetricsSample>>
    decreases s.len(),
{
    if s.len() == 0 {
        Map::empty()
    } else {
        rings_map(s.drop_last()).insert(s.last().server_id@, s.last().samples@)
    }
}

spec fn rings_wf(s: Seq<ServerRing>) -> bool {
    &&& forall|i: int, j: int| 0 <= i < j < s.len() ==> s[i].server_id@ != s[j].server_id@
    &&& forall|i: int| 0 <= i < s.len() ==> (#[trigger] s[i]).samples@.len() <= RING_SIZE
}

proof fn lemma_rings_dom(s: Seq<ServerRing>)
    ensures
        forall|k: Seq<char>|
            #[trigger] rings_map(s).contains_key(k) <==> exists|i: int|
                0 <= i < s.len() && #[trigger] s[i].server_id@ == k,
    decreases s.len(),
{
    if s.len() > 0 {
        let t = s.drop_last();
        lemma_rings_dom(t);
        assert forall|k: Seq<char>| #[trigger]
            rings_map(s).contains_key(k) <==> exists|i: int|
                0 <= i < s.len() && #[trigger] s[i].server_id@ == k by {
            if rings_map(s).contains_key(k) && k != s.last().server_id@ {
                assert(rings_map(t).contains_key(k));
                let i = choose|i: int| 0 <= i < t.len() && #[trigger] t[i].server_id@ == k;
                assert(s[i].server_id@ == k);
            }
            if rings_map(s).contains_key(k) && k == s.last().server_id@ {
                assert(s[s.len() - 1].server_id@ == k);
            }
            if exists|i: int| 0 <= i < s.len() && #[trigger] s[i].server_id@ == k {
                let i = choose|i: int| 0 <= i < s.len() && #[trigger] s[i].server_id@ == k;
                if i < s.len() - 1 {
                    assert(t[i].server_id@ == k);
                    assert(rings_map(t).contains_key(k));
                }
            }
        }
    }
}

proof fn lemma_rings_at(s: Seq<ServerRing>, i: int)
    requires
        rings_wf(s),
        0 <= i < s.len(),
    ensures
        rings_map(s).contains_key(s[i].server_id@),
        rings_map(s)[s[i].server_id@] == s[i].samples@,
    decreases s.len(),
{
    if i < s.len() - 1 {
        let t = s.drop_last();
        assert(t[i] == s[i]);
        lemma_rings_at(t, i);
        assert(s[i].server_id@ != s.last().server_id@);
    }
}

proof fn lemma_rings_update(s: Seq<ServerRing>, i: int, r: ServerRing)
    requires
        rings_wf(s),
        0 <= i < s.len(),
        r.server_id@ == s[i].server_id@,
    ensures
        rings_map(s.update(i, r)) == rings_map(s).insert(r.server_id@, r.samples@),
    decreases s.len(),
{
    let u = s.update(i, r);
    let t = s.drop_last();
    if i == s.len() - 1 {
        assert(u.drop_last() =~= t);
        assert(rings_map(u) =~= rings_map(s).insert(r.server_id@, r.samples@));
    } else {
        assert(u.drop_last() =~= t.update(i, r));
        lemma_rings_update(t, i, r);
        assert(s[i].server_id@ != s.last().server_id@);
        assert(rings_map(u) =~= rings_map(s).insert(r.server_id@, r.samples@));
    }
}

/// The recent metrics samples of every server, at most [`RING_SIZE`] each.
pub struct MetricsStore {
    rings: Vec<ServerRing>,
}

impl View for MetricsStore {
    type V = Map<Seq<char>, Seq<MetricsSample>>;

    closed spec fn view(&self) -> Map<Seq<char>, Seq<MetricsSample>> {
        rings_map(self.rings@)
    }
}

impl MetricsStore {
    #[verifier::type_invariant]
    spec fn inv(self) -> bool {
        rings_wf(self.rings@)
    }

    /// A store with no history.
    pub fn new() -> (s: Self)
        ensures
            s@ == Map::<Seq<char>, Seq<MetricsSample>>::empty(),
    {
        MetricsStore { rings: Vec::new() }
    }

    fn find(&self, server_id: &String) -> (r: Option<usize>)
        ensures
            match r {
                Some(i) => i < self.rings@.len() && self.rings@[i as int].server_id@
                    == server_id@,
                None => !self@.contains_key(server_id@),
            },
    {
        let mut i: usize = 0;
        while i < self.rings.len()
            invariant
                i <= self.rings@.len(),
                forall|k: int| 0 <= k < i ==> #[trigger] self.rings@[k].server_id@ != server_id@,
            decreases self.rings@.len() - i,
        {
            if self.rings[i].server_id == *server_id {
                return Some(i);
            }
            i = i + 1;
        }
        proof {
            lemma_rings_dom(self.rings@);
        }
        None
    }

    /// Records `sample` for `server_id`, dropping the oldest sample once
    /// [`RING_SIZE`] are held.
    pub fn push(&mut self, server_id: &str, sample: MetricsSample)
        ensures
            final(self)@ == old(self)@.insert(
                server_id@,
                push_bounded(history_of(old(self)@, server_id@), sample),
            ),
    {
        proof {
            use_type_invariant(&*self);
        }
        let id = server_id.to_owned();
        match self.find(&id) {
            Some(i) => {
                let ghost before = self.rings@;
                proof {
                    lemma_rings_at(before, i as int);
                }
                let mut taken: Vec<ServerRing> = Vec::new();
                std::mem::swap(&mut self.rings, &mut taken);
                let mut ring = taken.remove(i);
                let ghost h = ring.samples@;
                if ring.samples.len() >= RING_SIZE {
                    ring.samples.pop_front();
                }
                ring.samples.push_back(sample);
                assert(ring.samples@ =~= push_bounded(h, sample));
                let ghost r = ring;
                taken.insert(i, ring);
                assert(taken@ =~= before.update(i as int, r));
                proof {
                    lemma_rings_update(before, i as int, r);
                }
                self.rings = taken;
            },
            None => {
                let ghost before = self.rings@;
                let mut samples = std::collections::VecDeque::new();
                samples.push_back(sample);
                let ring = ServerRing { server_id: id, samples };
                proof {
                    lemma_rings_dom(before);
                    if exists|j: int| 0 <= j < before.len() && #[trigger] before[j].server_id@ == server_id@ {
                        assert(rings_map(before).contains_key(server_id@));
                    }
                }
                let mut taken: Vec<ServerRing> = Vec::new();
                std::mem::swap(&mut self.rings, &mut taken);
                taken.push(ring);
                assert(taken@.drop_last() =~= before);
                assert(push_bounded(Seq::empty(), sample) =~= seq![sample]);
                self.rings = taken;
            },
        }
    }

    /// The samples held for `server_id`, oldest first; empty for a server
    /// never seen.
    pub fn history(&self, server_id: &str) -> (h: Vec<MetricsSample>)
        ensures
            h@ == history_of(self@, server_id@),
            h@.len() <= RING_SIZE,
    {
        proof {
            use_type_invariant(self);
        }
        let id = server_id.to_owned();
        let mut out: Vec<MetricsSample> = Vec::new();
        match self.find(&id) {
            Some(i) => {
                proof {
                    lemma_rings_at(self.rings@, i as int);
                }
                let ring = &self.rings[i];
                let n = ring.samples.len();
                let mut j: usize = 0;
                while j < n
                    invariant
                        n == ring.samples@.len(),
                        j <= n,
                        out@ == ring.samples@.take(j as int),
                    decreases n - j,
                {
                    out.push(ring.samples[j]);
                    assert(out@ =~= ring.samples@.take(j + 1));
                    j = j + 1;
                }
                assert(ring.samples@.take(n as int) =~= ring.samples@);
                out
            },
            None => {
                assert(out@ =~= history_of(self@, server_id@));
                out
            },
        }
    }
}

/// A history never exceeds [`RING_SIZE`] samples, and a push keeps the
/// newest sample last.
pub proof fn law_push_bounded(h: Seq<MetricsSample>, sample: MetricsSample)
    requires
        h.len() <= RING_SIZE,
    ensures
        push_bounded(h, sample).len() <= RING_SIZE,
        push_bounded(h, sample).last() == sample,
        h.len() < RING_SIZE ==> push_bounded(h, sample) == h.push(sample),
        h.len() == RING_SIZE ==> push_bounded(h, sample) == h.subrange(1, h.len() as int).push(
            sample,
        ),
{
}

/// A push for one server leaves the history of every other server as it was.
pub proof fn law_push_isolated(
    m: Map<Seq<char>, Seq<MetricsSample>>,
    id: Seq<char>,
    other: Seq<char>,
    sample: MetricsSample,
)
    requires
        id != other,
    ensures
        history_of(m.insert(id, push_bounded(history_of(m, id), sample)), other) == history_of(
            m,
            other,
        ),
{
}

} // verus!
