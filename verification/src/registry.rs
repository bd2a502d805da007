//! Registry: the immutable map from a job-type tag to its handler, filled
//! once while the runner is configured and only read at dispatch time.
//!
//! Handlers themselves are host code; the registry pairs each tag with a
//! caller-chosen token (an index into the host's handler list) and the host
//! resolves the token to the code it stands for.
use vstd::prelude::*;

verus! {

/// One registration: a job-type tag and the token of its handler.
pub struct RegistryEntry {
    pub job_type: String,
    pub handler: usize,
}

impl View for RegistryEntry {
    type V = (Seq<char>, usize);

    open spec fn view(&self) -> (Seq<char>, usize) {
        (self.job_type@, self.handler)
    }
}

/// The map an entry list denotes; a later registration of the same tag
/// overrides an earlier one.
pub open spec fn map_of(entries: Seq<(Seq<char>, usize)>) -> Map<Seq<char>, usize>
    decreases entries.len(),
{
    if entries.len() == 0 {
        Map::empty()
    } else {
        map_of(entries.drop_last()).insert(entries.last().0, entries.last().1)
    }
}

/// The handler token the entry list pairs with `t`: that of the latest
/// matching entry.
pub open spec fn lookup(entries: Seq<(Seq<char>, usize)>, t: Seq<char>) -> Option<usize>
    decreases entries.len(),
{
    if entries.len() == 0 {
        None
    } else if entries.last().0 == t {
        Some(entries.last().1)
    } else {
        lookup(entries.drop_last(), t)
    }
}

/// `lookup` reads exactly the map the entry list denotes.
pub proof fn lemma_lookup_map_of(entries: Seq<(Seq<char>, usize)>, t: Seq<char>)
    ensures
        match lookup(entries, t) {
            Some(h) => map_of(entries).contains_key(t) && map_of(entries)[t] == h,
            None => !map_of(entries).contains_key(t),
        },
    decreases entries.len(),
{
    if entries.len() > 0 && entries.last().0 != t {
        lemma_lookup_map_of(entries.drop_last(), t);
    }
}

/// The registry. Its mathematical value is the map from tag to handler
/// token; registering the same tag twice keeps the later handler.
pub struct Registry {
    pub entries: Vec<RegistryEntry>,
}

impl View for Registry {
    type V = Map<Seq<char>, usize>;

    open spec fn view(&self) -> Map<Seq<char>, usize> {
        map_of(self.entries@.map(|i: int, e: RegistryEntry| e@))
    }
}

impl Registry {
    pub fn new() -> (r: Registry)
        ensures
            r@ == Map::<Seq<char>, usize>::empty(),
    {
        let r = Registry { entries: Vec::new() };
        proof {
            assert(r.entries@.map(|i: int, e: RegistryEntry| e@) =~= Seq::<
                (Seq<char>, usize),
            >::empty());
        }
        r
    }

    /// Register a handler for a job type. Called for every job type the
    /// runner is to dispatch; registering a tag again overrides the earlier
    /// handler.
    pub fn register(&mut self, job_type: String, handler: usize)
        ensures
            final(self)@ == old(self)@.insert(job_type@, handler),
    {
        let entry = RegistryEntry { job_type, handler };
        let ghost ev = entry@;
        self.entries.push(entry);
        proof {
            let f = |i: int, e: RegistryEntry| e@;
            assert(self.entries@.map(f) =~= old(self).entries@.map(f).push(ev));
            assert(self.entries@.map(f).drop_last() =~= old(self).entries@.map(f));
        }
    }

    /// Dispatch-time lookup: the handler token registered for the tag, if
    /// any.
    #[verifier::loop_isolation(false)]
    pub fn get(&self, job_type: &String) -> (r: Option<usize>)
        ensures
            r == if self@.contains_key(job_type@) {
                Some(self@[job_type@])
            } else {
                None::<usize>
            },
    {
        let ghost f = |i: int, e: RegistryEntry| e@;
        let ghost evs = self.entries@.map(f);
        proof {
            lemma_lookup_map_of(evs, job_type@);
            assert(evs.take(self.entries@.len() as int) =~= evs);
        }
        let mut i: usize = self.entries.len();
        while i > 0
            invariant
                i <= self.entries.len(),
                lookup(evs, job_type@) == lookup(evs.take(i as int), job_type@),
            decreases i,
        {
            i = i - 1;
            proof {
                assert(evs.take(i + 1).drop_last() =~= evs.take(i as int));
                assert(evs.take(i + 1).last() == evs[i as int]);
                assert(evs[i as int] == self.entries@[i as int]@);
            }
            if self.entries[i].job_type == *job_type {
                return Some(self.entries[i].handler);
            }
        }
        proof {
            assert(evs.take(0) =~= Seq::<(Seq<char>, usize)>::empty());
        }
        None
    }
}

} // verus!
