//! A minimal transform buffer: the frame graph built from `/tf` and
//! `/tf_static`.
//!
//! Each edge holds the latest transform received from a child frame to its
//! parent; a lookup walks both frames up to their nearest common ancestor
//! and hands back the two chains of transforms to compose. The transforms
//! themselves are opaque here: composing and inverting them is the caller's
//! arithmetic.
//!
//! There is no interpolation over time and no expiry: each edge keeps only
//! the latest transform it received, forever.

use vstd::prelude::*;
use vstd::string::StringSliceAdditionalSpecFns;
use vstd::utf8::encode_utf8;

verus! {

/// How deep a frame chain may go before it is treated as a cycle.
pub const MAX_CHAIN: usize = 64;

/// A lookup that could not be answered.
#[derive(Debug, Clone, PartialEq, Eq)]
pub enum TfError {
    /// The frame has never appeared, as a parent or a child.
    UnknownFrame(String),
    /// Both frames are known but sit in disconnected parts of the graph.
    Disconnected {
        /// Frame being resolved into.
        target: String,
        /// Frame being resolved from.
        source: String,
    },
    /// Following parents from this frame never reached a root.
    Cycle(String),
}

/// The UTF-8 bytes of a string.
pub open spec fn str_bytes(s: String) -> Seq<u8> {
    encode_utf8(s@)
}

/// A frame name without the leading slash a ROS 1 era publisher may emit.
pub open spec fn spec_normalize(name: Seq<u8>) -> Seq<u8> {
    if name.len() > 0 && name[0] == 47 {
        name.subrange(1, name.len() as int)
    } else {
        name
    }
}

/// Drops the leading slash a ROS 1 era publisher may still emit, so that
/// `/base_link` and `base_link` name the same frame.
pub fn normalize(frame: &str) -> (r: &str)
    ensures
        r.spec_bytes() == spec_normalize(frame.spec_bytes()),
{
    let b = frame.as_bytes();
    if b.len() > 0 && b[0] == 47 {
        proof {
            vstd::utf8::encode_utf8_valid_utf8(frame@);
            let bytes = frame.spec_bytes();
            assert(vstd::utf8::length_of_first_scalar(bytes) == 1);
            assert(vstd::utf8::valid_utf8(vstd::utf8::pop_first_scalar(bytes)));
            assert(vstd::utf8::is_char_boundary(vstd::utf8::pop_first_scalar(bytes), 0));
            assert(vstd::utf8::is_char_boundary(bytes, 1));
        }
        let (_, rest) = frame.split_at(1);
        rest
    } else {
        frame
    }
}

fn bytes_eq(a: &[u8], b: &[u8]) -> (r: bool)
    ensures
        r == (a@ == b@),
{
    if a.len() != b.len() {
        return false;
    }
    let mut i: usize = 0;
    while i < a.len()
        invariant
            i <= a@.len(),
            a@.len() == b@.len(),
            forall|j: int| 0 <= j < i ==> a@[j] == b@[j],
        decreases a@.len() - i,
    {
        if a[i] != b[i] {
            return false;
        }
        i += 1;
    }
    assert(a@ =~= b@);
    true
}

fn str_eq(a: &str, b: &str) -> (r: bool)
    ensures
        r == (a.spec_bytes() == b.spec_bytes()),
{
    bytes_eq(a.as_bytes(), b.as_bytes())
}

/// What an edge holds: the parent frame, `parent_T_child`, its stamp in
/// nanoseconds, and whether it came from `/tf_static`.
pub type EdgeView<P> = (Seq<u8>, P, i64, bool);

/// One edge of the frame graph: a child and the transform to its parent.
struct Edge<P> {
    child: String,
    parent: String,
    transform: P,
    stamp_ns: i64,
    is_static: bool,
}

/// The edges of a list, keyed by child frame.
spec fn edges_map<P>(s: Seq<Edge<P>>) -> Map<Seq<u8>, EdgeView<P>>
    decreases s.len(),
{
    if s.len() == 0 {
        Map::empty()
    } else {
        let e = s.last();
        edges_map(s.drop_last()).insert(
            str_bytes(e.child),
            (str_bytes(e.parent), e.transform, e.stamp_ns, e.is_static),
        )
    }
}

/// No two edges share a child frame.
spec fn distinct_children<P>(s: Seq<Edge<P>>) -> bool {
    forall|i: int, j: int|
        0 <= i < j < s.len() ==> str_bytes(#[trigger] s[i].child) != str_bytes(#[trigger] s[j].child)
}

proof fn lemma_edges_map_index<P>(s: Seq<Edge<P>>, i: int)
    requires
        distinct_children(s),
        0 <= i < s.len(),
    ensures
        edges_map(s).contains_key(str_bytes(s[i].child)),
        edges_map(s)[str_bytes(s[i].child)] == (
            str_bytes(s[i].parent),
            s[i].transform,
            s[i].stamp_ns,
            s[i].is_static,
        ),
    decreases s.len(),
{
    if i < s.len() - 1 {
        assert(distinct_children(s.drop_last()));
        lemma_edges_map_index(s.drop_last(), i);
        assert(s.drop_last()[i] == s[i]);
    }
}

proof fn lemma_edges_map_keys<P>(s: Seq<Edge<P>>)
    ensures
        forall|k: Seq<u8>|
            #[trigger] edges_map(s).contains_key(k) ==> exists|i: int|
                0 <= i < s.len() && str_bytes(#[trigger] s[i].child) == k,
        edges_map(s).dom().finite(),
        distinct_children(s) ==> edges_map(s).dom().len() == s.len(),
    decreases s.len(),
{
    if s.len() > 0 {
        let t = s.drop_last();
        lemma_edges_map_keys(t);
        assert forall|k: Seq<u8>| #[trigger] edges_map(s).contains_key(k) implies exists|i: int|
            0 <= i < s.len() && str_bytes(#[trigger] s[i].child) == k by {
            if k != str_bytes(s.last().child) {
                let i = choose|i: int| 0 <= i < t.len() && str_bytes(#[trigger] t[i].child) == k;
                assert(s[i] == t[i]);
            } else {
                assert(s[s.len() - 1] == s.last());
            }
        }
        if distinct_children(s) {
            assert(distinct_children(t));
            assert(!edges_map(t).contains_key(str_bytes(s.last().child))) by {
                if edges_map(t).contains_key(str_bytes(s.last().child)) {
                    let i = choose|i: int|
                        0 <= i < t.len() && str_bytes(#[trigger] t[i].child) == str_bytes(
                            s.last().child,
                        );
                    assert(s[i] == t[i]);
                    assert(s[s.len() - 1] == s.last());
                }
            }
        }
    }
}

proof fn lemma_edges_map_update<P>(s: Seq<Edge<P>>, i: int, e: Edge<P>)
    requires
        distinct_children(s),
        0 <= i < s.len(),
        str_bytes(e.child) == str_bytes(s[i].child),
    ensures
        distinct_children(s.update(i, e)),
        edges_map(s.update(i, e)) == edges_map(s).insert(
            str_bytes(e.child),
            (str_bytes(e.parent), e.transform, e.stamp_ns, e.is_static),
        ),
    decreases s.len(),
{
    let u = s.update(i, e);
    assert forall|a: int, b: int|
        0 <= a < b < u.len() implies str_bytes(#[trigger] u[a].child) != str_bytes(
        #[trigger] u[b].child,
    ) by {
        assert(str_bytes(u[a].child) == str_bytes(s[a].child));
        assert(str_bytes(u[b].child) == str_bytes(s[b].child));
    }
    if i == s.len() - 1 {
        assert(u.drop_last() =~= s.drop_last());
        assert(distinct_children(s.drop_last()));
        assert(!edges_map(s.drop_last()).contains_key(str_bytes(e.child))) by {
            lemma_edges_map_keys(s.drop_last());
            if edges_map(s.drop_last()).contains_key(str_bytes(e.child)) {
                let j = choose|j: int|
                    0 <= j < s.drop_last().len() && str_bytes(#[trigger] s.drop_last()[j].child)
                        == str_bytes(e.child);
                assert(s[j] == s.drop_last()[j]);
            }
        }
        assert(edges_map(u) =~= edges_map(s).insert(
            str_bytes(e.child),
            (str_bytes(e.parent), e.transform, e.stamp_ns, e.is_static),
        ));
    } else {
        let t = s.drop_last();
        assert(u.drop_last() =~= t.update(i, e));
        assert(distinct_children(t));
        lemma_edges_map_update(t, i, e);
        assert(u.last() == s.last());
        assert(str_bytes(s.last().child) != str_bytes(e.child)) by {
            assert(s[s.len() - 1] == s.last());
        }
        assert(edges_map(u) =~= edges_map(s).insert(
            str_bytes(e.child),
            (str_bytes(e.parent), e.transform, e.stamp_ns, e.is_static),
        ));
    }
}

/// The frame graph, keyed by child frame: every frame has at most one
/// parent.
pub struct TfBuffer<P> {
    edges: Vec<Edge<P>>,
}

impl<P: Copy> TfBuffer<P> {
    /// The edges, keyed by child frame.
    pub closed spec fn edge_map(&self) -> Map<Seq<u8>, EdgeView<P>> {
        edges_map(self.edges@)
    }

    /// No two stored edges share a child.
    pub closed spec fn wf(&self) -> bool {
        distinct_children(self.edges@)
    }

    /// An empty graph.
    pub fn new() -> (t: Self)
        ensures
            t.wf(),
            t.edge_map() == Map::<Seq<u8>, EdgeView<P>>::empty(),
    {
        TfBuffer { edges: Vec::new() }
    }

    fn find(&self, child: &str) -> (r: Option<usize>)
        requires
            self.wf(),
        ensures
            match r {
                Some(i) => i < self.edges@.len() && str_bytes(self.edges@[i as int].child)
                    == child.spec_bytes(),
                None => !self.edge_map().contains_key(child.spec_bytes()),
            },
    {
        let mut i: usize = 0;
        while i < self.edges.len()
            invariant
                i <= self.edges@.len(),
                forall|j: int| 0 <= j < i ==> str_bytes(#[trigger] self.edges@[j].child) != child.spec_bytes(),
            decreases self.edges@.len() - i,
        {
            if str_eq(self.edges[i].child.as_str(), child) {
                return Some(i);
            }
            i += 1;
        }
        proof {
            lemma_edges_map_keys(self.edges@);
        }
        None
    }

    /// Records `parent_T_child`.
    ///
    /// A dynamic transform older than the one already held for the same
    /// edge is dropped: delivery order is not guaranteed, and a late arrival
    /// must not rewind the pose. Static transforms always win.
    pub fn insert(&mut self, parent: &str, child: &str, transform: P, stamp_ns: i64, is_static: bool)
        requires
            old(self).wf(),
        ensures
            final(self).wf(),
            ({
                let p = spec_normalize(parent.spec_bytes());
                let c = spec_normalize(child.spec_bytes());
                let m = old(self).edge_map();
                let stale = m.contains_key(c) && !is_static && !m[c].3 && m[c].0 == p && stamp_ns
                    < m[c].2;
                final(self).edge_map() == if stale {
                    m
                } else {
                    m.insert(c, (p, transform, stamp_ns, is_static))
                }
            }),
    {
        let parent = normalize(parent);
        let child = normalize(child);
        let e = Edge {
            child: child.to_owned(),
            parent: parent.to_owned(),
            transform,
            stamp_ns,
            is_static,
        };
        match self.find(child) {
            Some(i) => {
                proof {
                    lemma_edges_map_index(self.edges@, i as int);
                }
                let existing = &self.edges[i];
                let stale = !is_static && !existing.is_static && str_eq(
                    existing.parent.as_str(),
                    parent,
                ) && stamp_ns < existing.stamp_ns;
                if stale {
                    return;
                }
                proof {
                    lemma_edges_map_update(self.edges@, i as int, e);
                }
                self.edges.set(i, e);
            },
            None => {
                proof {
                    lemma_edges_map_keys(self.edges@);
                    assert(self.edges@.push(e).drop_last() =~= self.edges@);
                    assert forall|a: int, b: int|
                        0 <= a < b < self.edges@.len() + 1 implies str_bytes(
                        #[trigger] self.edges@.push(e)[a].child,
                    ) != str_bytes(#[trigger] self.edges@.push(e)[b].child) by {
                        if b == self.edges@.len() {
                            assert(self.edges@.push(e)[a] == self.edges@[a]);
                            lemma_edges_map_index(self.edges@, a);
                        } else {
                            assert(self.edges@.push(e)[a] == self.edges@[a]);
                            assert(self.edges@.push(e)[b] == self.edges@[b]);
                        }
                    }
                }
                self.edges.push(e);
            },
        }
    }

    /// Number of edges held.
    pub fn len(&self) -> (n: usize)
        requires
            self.wf(),
        ensures
            n == self.edge_map().dom().len(),
    {
        proof {
            lemma_edges_map_keys(self.edges@);
        }
        self.edges.len()
    }
}

/// The frame appears in the graph, as a child or as a parent.
pub open spec fn spec_knows<P>(m: Map<Seq<u8>, EdgeView<P>>, frame: Seq<u8>) -> bool {
    m.contains_key(frame) || exists|k: Seq<u8>| #[trigger] m.contains_key(k) && m[k].0 == frame
}

/// Walking parents from the last of `frames`, recording each frame and each
/// step's transform, until a frame without parent; `Err` when a parent
/// repeats a frame already on the path or the path grows past
/// [`MAX_CHAIN`].
pub open spec fn walk<P>(m: Map<Seq<u8>, EdgeView<P>>, frames: Seq<Seq<u8>>, steps: Seq<P>) -> Result<
    (Seq<Seq<u8>>, Seq<P>),
    (),
>
    decreases MAX_CHAIN + 2 - frames.len(),
{
    if frames.len() == 0 {
        Err(())
    } else if !m.contains_key(frames.last()) {
        Ok((frames, steps))
    } else {
        let e = m[frames.last()];
        if frames.len() > MAX_CHAIN || frames.contains(e.0) {
            Err(())
        } else {
            walk(m, frames.push(e.0), steps.push(e.1))
        }
    }
}

/// The last index at which `x` occurs in `s`.
pub open spec fn last_index(s: Seq<Seq<u8>>, x: Seq<u8>) -> Option<int>
    decreases s.len(),
{
    if s.len() == 0 {
        None
    } else if s.last() == x {
        Some(s.len() - 1)
    } else {
        last_index(s.drop_last(), x)
    }
}

/// The first frame of `sf`, from `i` on, that also lies on `tf`: its index
/// in each.
pub open spec fn first_common(sf: Seq<Seq<u8>>, tf: Seq<Seq<u8>>, i: int) -> Option<(int, int)>
    decreases sf.len() - i,
{
    if i < 0 || i >= sf.len() {
        None
    } else {
        match last_index(tf, sf[i]) {
            Some(j) => Some((i, j)),
            None => first_common(sf, tf, i + 1),
        }
    }
}

/// How a lookup resolves: either the frames are the same, or the two chains
/// of `parent_T_child` steps from each frame up to their nearest common
/// ancestor, to be composed by the caller into
/// `inverse(compose(target_up)) * compose(source_up)`.
#[derive(Debug)]
pub enum Resolution<P> {
    /// Source and target are the same frame.
    Identity,
    /// The steps from each frame up to the common ancestor, nearest first.
    Chains {
        /// Steps from the source frame upward.
        source_up: Vec<P>,
        /// Steps from the target frame upward.
        target_up: Vec<P>,
    },
}

/// The bytes of each frame name in a list.
pub open spec fn names(v: Seq<&str>) -> Seq<Seq<u8>> {
    v.map_values(|s: &str| s.spec_bytes())
}

fn contains_name(frames: &Vec<&str>, name: &str) -> (r: bool)
    ensures
        r == names(frames@).contains(name.spec_bytes()),
{
    let mut i: usize = 0;
    while i < frames.len()
        invariant
            i <= frames@.len(),
            forall|j: int| 0 <= j < i ==> names(frames@)[j] != name.spec_bytes(),
        decreases frames@.len() - i,
    {
        if str_eq(frames[i], name) {
            proof {
                assert(names(frames@)[i as int] == name.spec_bytes());
            }
            return true;
        }
        i += 1;
    }
    false
}

impl<P: Copy> TfBuffer<P> {
    /// Whether the graph mentions this frame at all, as parent or child.
    fn knows(&self, frame: &str) -> (r: bool)
        requires
            self.wf(),
        ensures
            r == spec_knows(self.edge_map(), frame.spec_bytes()),
    {
        proof {
            lemma_edges_map_keys(self.edges@);
        }
        let mut i: usize = 0;
        while i < self.edges.len()
            invariant
                i <= self.edges@.len(),
                self.wf(),
                forall|j: int|
                    0 <= j < i ==> str_bytes(#[trigger] self.edges@[j].child) != frame.spec_bytes()
                        && str_bytes(self.edges@[j].parent) != frame.spec_bytes(),
            decreases self.edges@.len() - i,
        {
            if str_eq(self.edges[i].child.as_str(), frame) || str_eq(
                self.edges[i].parent.as_str(),
                frame,
            ) {
                proof {
                    lemma_edges_map_index(self.edges@, i as int);
                }
                return true;
            }
            i += 1;
        }
        proof {
            lemma_edges_map_keys(self.edges@);
            if spec_knows(self.edge_map(), frame.spec_bytes()) {
                let m = self.edge_map();
                let k = if m.contains_key(frame.spec_bytes()) {
                    frame.spec_bytes()
                } else {
                    choose|k: Seq<u8>| #[trigger] m.contains_key(k) && m[k].0 == frame.spec_bytes()
                };
                let j = choose|j: int| 0 <= j < self.edges@.len() && str_bytes(#[trigger] self.edges@[j].child) == k;
                lemma_edges_map_index(self.edges@, j);
            }
        }
        false
    }

    /// Walks from `frame` up to its root: the frames met, starting with
    /// `frame`, and the transform of each step.
    fn chain<'a>(&'a self, frame: &'a str) -> (r: Result<(Vec<&'a str>, Vec<P>), TfError>)
        requires
            self.wf(),
        ensures
            match walk(self.edge_map(), seq![frame.spec_bytes()], Seq::<P>::empty()) {
                Err(_) => r matches Err(TfError::Cycle(n)) && str_bytes(n) == frame.spec_bytes(),
                Ok((fs, ss)) => r matches Ok((frames, steps)) && names(frames@) == fs && steps@
                    == ss,
            },
    {
        let mut frames: Vec<&'a str> = Vec::new();
        frames.push(frame);
        let mut steps: Vec<P> = Vec::new();
        let mut current: &'a str = frame;
        proof {
            assert(names(frames@) =~= seq![frame.spec_bytes()]);
        }
        loop
            invariant_except_break
                walk(self.edge_map(), seq![frame.spec_bytes()], Seq::<P>::empty()) == walk(
                    self.edge_map(),
                    names(frames@),
                    steps@,
                ),
            invariant
                self.wf(),
                frames@.len() >= 1,
                frames@.len() <= MAX_CHAIN + 1,
                current.spec_bytes() == names(frames@).last(),
            ensures
                walk(self.edge_map(), seq![frame.spec_bytes()], Seq::<P>::empty()) == Ok::<
                    (Seq<Seq<u8>>, Seq<P>),
                    (),
                >((names(frames@), steps@)),
            decreases MAX_CHAIN + 2 - frames@.len(),
        {
            let i = match self.find(current) {
                None => {
                    break;
                },
                Some(i) => i,
            };
            proof {
                lemma_edges_map_index(self.edges@, i as int);
            }
            let edge = &self.edges[i];
            let parent = edge.parent.as_str();
            if frames.len() > MAX_CHAIN || contains_name(&frames, parent) {
                return Err(TfError::Cycle(frame.to_owned()));
            }
            let ghost before = frames@;
            steps.push(edge.transform);
            frames.push(parent);
            current = parent;
            proof {
                assert(names(frames@) =~= names(before).push(parent.spec_bytes()));
            }
        }
        Ok((frames, steps))
    }
}

fn prefix<P: Copy>(v: &Vec<P>, n: usize) -> (r: Vec<P>)
    requires
        n <= v@.len(),
    ensures
        r@ == v@.take(n as int),
{
    let mut r: Vec<P> = Vec::new();
    let mut i: usize = 0;
    while i < n
        invariant
            i <= n <= v@.len(),
            r@ == v@.take(i as int),
        decreases n - i,
    {
        r.push(v[i]);
        i += 1;
        proof {
            assert(r@ =~= v@.take(i as int));
        }
    }
    r
}

/// The last index in `frames` of `name`, as [`last_index`] has it.
fn last_index_of(frames: &Vec<&str>, name: &str) -> (r: Option<usize>)
    ensures
        match last_index(names(frames@), name.spec_bytes()) {
            None => r is None,
            Some(j) => r == Some(j as usize),
        },
{
    let ghost all = names(frames@);
    let mut k: usize = frames.len();
    proof {
        assert(all.take(k as int) =~= all);
    }
    while k > 0
        invariant
            k <= frames@.len(),
            all == names(frames@),
            last_index(all, name.spec_bytes()) == last_index(all.take(k as int), name.spec_bytes()),
        decreases k,
    {
        proof {
            assert(all.take(k as int).drop_last() =~= all.take(k - 1));
            assert(all.take(k as int).last() == all[k - 1]);
        }
        if str_eq(frames[k - 1], name) {
            return Some(k - 1);
        }
        k -= 1;
    }
    proof {
        assert(all.take(0) =~= Seq::<Seq<u8>>::empty());
    }
    None
}

impl<P: Copy> TfBuffer<P> {
    /// Resolves `target_T_source`, the transform that maps a point given in
    /// `source` into `target`, as the two chains of steps up to the frames'
    /// nearest common ancestor.
    ///
    /// The nearest common ancestor is the first frame on the source's path
    /// up that also lies on the target's.
    #[verifier::loop_isolation(false)]
    pub fn lookup(&self, target: &str, source: &str) -> (r: Result<Resolution<P>, TfError>)
        requires
            self.wf(),
        ensures
            ({
                let t = spec_normalize(target.spec_bytes());
                let s = spec_normalize(source.spec_bytes());
                let m = self.edge_map();
                if t == s {
                    r matches Ok(Resolution::Identity)
                } else if !spec_knows(m, t) {
                    r matches Err(TfError::UnknownFrame(n)) && str_bytes(n) == t
                } else if !spec_knows(m, s) {
                    r matches Err(TfError::UnknownFrame(n)) && str_bytes(n) == s
                } else {
                    match walk(m, seq![s], Seq::<P>::empty()) {
                        Err(_) => r matches Err(TfError::Cycle(n)) && str_bytes(n) == s,
                        Ok((sf, ss)) => match walk(m, seq![t], Seq::<P>::empty()) {
                            Err(_) => r matches Err(TfError::Cycle(n)) && str_bytes(n) == t,
                            Ok((tf, ts)) => match first_common(sf, tf, 0) {
                                None => r matches Err(TfError::Disconnected { target, source })
                                    && str_bytes(target) == t && str_bytes(source) == s,
                                Some((i, j)) => r matches Ok(
                                    Resolution::Chains { source_up, target_up },
                                ) && source_up@ == ss.take(i) && target_up@ == ts.take(j),
                            },
                        },
                    }
                }
            }),
            r matches Ok(Resolution::Chains { source_up, target_up }) ==> resolve_chains(
                self.edge_map(),
                spec_normalize(target.spec_bytes()),
                spec_normalize(source.spec_bytes()),
            ) == Some((source_up@, target_up@)),
    {
        let target = normalize(target);
        let source = normalize(source);
        if str_eq(target, source) {
            return Ok(Resolution::Identity);
        }
        if !self.knows(target) {
            return Err(TfError::UnknownFrame(target.to_owned()));
        }
        if !self.knows(source) {
            return Err(TfError::UnknownFrame(source.to_owned()));
        }
        let (source_frames, source_steps) = match self.chain(source) {
            Ok(c) => c,
            Err(e) => {
                return Err(e);
            },
        };
        let (target_frames, target_steps) = match self.chain(target) {
            Ok(c) => c,
            Err(e) => {
                return Err(e);
            },
        };
        let ghost sf = names(source_frames@);
        let ghost tf = names(target_frames@);
        proof {
            lemma_walk_lengths(self.edge_map(), seq![source.spec_bytes()], Seq::<P>::empty());
            lemma_walk_lengths(self.edge_map(), seq![target.spec_bytes()], Seq::<P>::empty());
        }
        let mut i: usize = 0;
        while i < source_frames.len()
            invariant
                i <= source_frames@.len(),
                sf == names(source_frames@),
                tf == names(target_frames@),
                first_common(sf, tf, 0) == first_common(sf, tf, i as int),
            decreases source_frames@.len() - i,
        {
            match last_index_of(&target_frames, source_frames[i]) {
                Some(j) => {
                    proof {
                        assert(sf[i as int] == source_frames@[i as int].spec_bytes());
                    }
                    proof {
                        lemma_last_index_bound(tf, sf[i as int]);
                    }
                    let source_up = prefix(&source_steps, i);
                    let target_up = prefix(&target_steps, j);
                    return Ok(Resolution::Chains { source_up, target_up });
                },
                None => {
                    proof {
                        assert(sf[i as int] == source_frames@[i as int].spec_bytes());
                    }
                },
            }
            i += 1;
        }
        Err(TfError::Disconnected { target: target.to_owned(), source: source.to_owned() })
    }
}

/// A walk records one step per frame it adds.
proof fn lemma_walk_lengths<P>(m: Map<Seq<u8>, EdgeView<P>>, frames: Seq<Seq<u8>>, steps: Seq<P>)
    requires
        frames.len() == steps.len() + 1,
    ensures
        walk(m, frames, steps) matches Ok((f, s)) ==> f.len() == s.len() + 1,
    decreases MAX_CHAIN + 2 - frames.len(),
{
    if frames.len() > 0 && m.contains_key(frames.last()) {
        let e = m[frames.last()];
        if !(frames.len() > MAX_CHAIN || frames.contains(e.0)) {
            lemma_walk_lengths(m, frames.push(e.0), steps.push(e.1));
        }
    }
}

proof fn lemma_last_index_bound(s: Seq<Seq<u8>>, x: Seq<u8>)
    ensures
        last_index(s, x) matches Some(j) ==> 0 <= j < s.len() && s[j] == x,
    decreases s.len(),
{
    if s.len() > 0 && s.last() != x {
        lemma_last_index_bound(s.drop_last(), x);
    }
}

/// Frame `k + 1` of `f` is the parent of frame `k`.
pub open spec fn parent_link<P>(m: Map<Seq<u8>, EdgeView<P>>, f: Seq<Seq<u8>>, k: int) -> bool {
    m.contains_key(f[k]) && m[f[k]].0 == f[k + 1]
}

/// `f` is a path up the graph: each frame after the first is the parent of
/// the one before it, and no frame repeats.
pub open spec fn is_path<P>(m: Map<Seq<u8>, EdgeView<P>>, f: Seq<Seq<u8>>) -> bool {
    &&& f.no_duplicates()
    &&& forall|k: int| 0 <= k < f.len() - 1 ==> #[trigger] parent_link(m, f, k)
}

/// The chains of steps a lookup of `target_T_source` hands back, when both
/// walks succeed and the frames share an ancestor.
pub open spec fn resolve_chains<P>(m: Map<Seq<u8>, EdgeView<P>>, target: Seq<u8>, source: Seq<u8>) -> Option<
    (Seq<P>, Seq<P>),
> {
    match walk(m, seq![source], Seq::<P>::empty()) {
        Err(_) => None,
        Ok((sf, ss)) => match walk(m, seq![target], Seq::<P>::empty()) {
            Err(_) => None,
            Ok((tf, ts)) => match first_common(sf, tf, 0) {
                None => None,
                Some((i, j)) => Some((ss.take(i), ts.take(j))),
            },
        },
    }
}

/// A successful walk ends in a frame without parent, along a path.
proof fn lemma_walk_path<P>(m: Map<Seq<u8>, EdgeView<P>>, frames: Seq<Seq<u8>>, steps: Seq<P>)
    requires
        frames.len() >= 1,
        is_path(m, frames),
    ensures
        walk(m, frames, steps) matches Ok((f, s)) ==> is_path(m, f) && !m.contains_key(f.last())
            && f.len() >= 1,
    decreases MAX_CHAIN + 2 - frames.len(),
{
    if m.contains_key(frames.last()) {
        let e = m[frames.last()];
        if !(frames.len() > MAX_CHAIN || frames.contains(e.0)) {
            let next = frames.push(e.0);
            assert forall|a: int, b: int| 0 <= a < b < next.len() implies next[a] != next[b] by {
                if b == next.len() - 1 {
                    assert(frames.contains(next[a]) || a == b);
                    if next[a] == next[b] {
                        assert(frames[a] == e.0);
                    }
                }
            }
            assert forall|k: int| 0 <= k < next.len() - 1 implies #[trigger] parent_link(m, next, k) by {
                assert(next[k] == frames[k]);
                if k < frames.len() - 1 {
                    assert(parent_link(m, frames, k));
                    assert(frames[k + 1] == next[k + 1]);
                } else {
                    assert(next[k] == frames.last());
                }
            }
            lemma_walk_path(m, next, steps.push(e.1));
        }
    }
}

/// Two paths that meet run together from there on and end together.
proof fn lemma_paths_align<P>(m: Map<Seq<u8>, EdgeView<P>>, a: Seq<Seq<u8>>, b: Seq<Seq<u8>>, p: int, q: int)
    requires
        is_path(m, a),
        is_path(m, b),
        a.len() >= 1 && !m.contains_key(a.last()),
        b.len() >= 1 && !m.contains_key(b.last()),
        0 <= p < a.len(),
        0 <= q < b.len(),
        a[p] == b[q],
    ensures
        a.len() - p == b.len() - q,
        forall|k: int| 0 <= k < a.len() - p ==> #[trigger] a[p + k] == b[q + k],
    decreases a.len() - p,
{
    if p == a.len() - 1 {
        if q < b.len() - 1 {
            assert(parent_link(m, b, q));
        }
        assert forall|k: int| 0 <= k < a.len() - p implies #[trigger] a[p + k] == b[q + k] by {
            assert(k == 0);
        }
    } else {
        assert(parent_link(m, a, p));
        if q == b.len() - 1 {
            assert(false);
        }
        assert(parent_link(m, b, q));
        lemma_paths_align(m, a, b, p + 1, q + 1);
        assert forall|k: int| 0 <= k < a.len() - p implies #[trigger] a[p + k] == b[q + k] by {
            if k > 0 {
                assert(a[(p + 1) + (k - 1)] == b[(q + 1) + (k - 1)]);
            }
        }
    }
}

/// `last_index` finds the one place a frame sits on a path without repeats.
proof fn lemma_last_index_unique(s: Seq<Seq<u8>>, x: Seq<u8>, k: int)
    requires
        s.no_duplicates(),
        0 <= k < s.len(),
        s[k] == x,
    ensures
        last_index(s, x) == Some(k),
    decreases s.len(),
{
    if k < s.len() - 1 {
        assert(s.last() != x);
        let d = s.drop_last();
        assert(d[k] == x);
        lemma_last_index_unique(d, x, k);
    }
}

/// `last_index` finds nothing only when the frame is absent.
proof fn lemma_last_index_none(s: Seq<Seq<u8>>, x: Seq<u8>, k: int)
    requires
        0 <= k < s.len(),
        s[k] == x,
    ensures
        last_index(s, x) is Some,
    decreases s.len(),
{
    if s.last() != x {
        let d = s.drop_last();
        assert(d[k] == x);
        lemma_last_index_none(d, x, k);
    }
}

/// What `first_common` finds: the first index from `start` whose frame
/// lies on the other path.
proof fn lemma_first_common_found(a: Seq<Seq<u8>>, b: Seq<Seq<u8>>, start: int)
    requires
        0 <= start,
    ensures
        first_common(a, b, start) matches Some((i, j)) ==> {
            &&& start <= i < a.len()
            &&& last_index(b, a[i]) == Some(j)
            &&& forall|k: int| start <= k < i ==> #[trigger] last_index(b, a[k]) is None
        },
    decreases a.len() - start,
{
    if start < a.len() && last_index(b, a[start]) is None {
        lemma_first_common_found(a, b, start + 1);
    }
}

/// `first_common` finds the first index from `start` whose frame lies on
/// the other path.
proof fn lemma_first_common_at(a: Seq<Seq<u8>>, b: Seq<Seq<u8>>, start: int, i: int, j: int)
    requires
        0 <= start <= i < a.len(),
        last_index(b, a[i]) == Some(j),
        forall|k: int| start <= k < i ==> #[trigger] last_index(b, a[k]) is None,
    ensures
        first_common(a, b, start) == Some((i, j)),
    decreases i - start,
{
    if start < i {
        lemma_first_common_at(a, b, start + 1, i, j);
    }
}

/// Looking a transform up the other way round gives the same two chains,
/// swapped: what is composed into `target_T_source` one way is composed
/// into its inverse the other way.
pub proof fn law_lookup_reversed<P>(m: Map<Seq<u8>, EdgeView<P>>, target: Seq<u8>, source: Seq<u8>)
    ensures
        resolve_chains(m, target, source) matches Some((up_source, up_target)) ==> resolve_chains(
            m,
            source,
            target,
        ) == Some((up_target, up_source)),
{
    if let Ok((sf, ss)) = walk(m, seq![source], Seq::<P>::empty()) {
        if let Ok((tf, ts)) = walk(m, seq![target], Seq::<P>::empty()) {
            if let Some((i, j)) = first_common(sf, tf, 0) {
                assert(is_path(m, seq![source]));
                assert(is_path(m, seq![target]));
                lemma_walk_path(m, seq![source], Seq::<P>::empty());
                lemma_walk_path(m, seq![target], Seq::<P>::empty());
                lemma_first_common_found(sf, tf, 0);
                lemma_last_index_bound(tf, sf[i]);
                lemma_paths_align(m, sf, tf, i, j);
                lemma_last_index_unique(sf, tf[j], i);
                assert forall|k: int| 0 <= k < j implies #[trigger] last_index(sf, tf[k]) is None by {
                    if let Some(i2) = last_index(sf, tf[k]) {
                        lemma_last_index_bound(sf, tf[k]);
                        lemma_paths_align(m, sf, tf, i2, k);
                        let d = j - k;
                        assert(sf[i2 + d] == tf[k + d]);
                        lemma_last_index_unique(sf, sf[i], i);
                        lemma_last_index_unique(sf, sf[i2 + d], i2 + d);
                        assert(i2 + d == i);
                        lemma_last_index_none(tf, sf[i2], k);
                        assert(last_index(tf, sf[i2]) is None);
                    }
                }
                lemma_first_common_at(tf, sf, 0, j, i);
            }
        }
    }
}

/// A frame named with one leading slash is the frame named without it:
/// `/base_link` and `base_link` normalize alike, so a lookup answers the
/// same for either spelling.
pub proof fn law_leading_slash(name: Seq<u8>)
    requires
        !(name.len() > 0 && name[0] == 47),
    ensures
        spec_normalize(seq![47u8] + name) == spec_normalize(name),
        spec_normalize(name) == name,
{
    assert((seq![47u8] + name).subrange(1, name.len() as int + 1) =~= name);
}

/// Walking up from a frame with a parent fails when every parent has a
/// parent in turn.
proof fn lemma_walk_without_root<P>(m: Map<Seq<u8>, EdgeView<P>>, frames: Seq<Seq<u8>>, steps: Seq<P>)
    requires
        frames.len() >= 1,
        m.contains_key(frames.last()),
        forall|k: Seq<u8>| m.contains_key(k) ==> m.contains_key(#[trigger] m[k].0),
    ensures
        walk(m, frames, steps) is Err,
    decreases MAX_CHAIN + 2 - frames.len(),
{
    let e = m[frames.last()];
    if !(frames.len() > MAX_CHAIN || frames.contains(e.0)) {
        let next = frames.push(e.0);
        assert(next.last() == e.0);
        lemma_walk_without_root(m, next, steps.push(e.1));
    }
}

/// Where parents run in a circle, so that no frame with a parent leads to a
/// root (`a` parent of `b`, `b` of `c`, `c` of `a`), walking up from any of
/// those frames fails: a lookup from or to it ends with `Cycle` rather than
/// looping, and resolves to no chains.
pub proof fn law_cycle_refused<P>(m: Map<Seq<u8>, EdgeView<P>>, frame: Seq<u8>, other: Seq<u8>)
    requires
        m.contains_key(frame),
        forall|k: Seq<u8>| m.contains_key(k) ==> m.contains_key(#[trigger] m[k].0),
    ensures
        walk(m, seq![frame], Seq::<P>::empty()) is Err,
        resolve_chains(m, other, frame) is None,
        resolve_chains(m, frame, other) is None,
{
    lemma_walk_without_root(m, seq![frame], Seq::<P>::empty());
}

} // verus!
