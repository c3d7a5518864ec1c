//! A line: an ordered run of two or more vertices, generic over the type of
//! a vertex. The order of the vertices gives the line its direction and its
//! segments, segment `i` running from vertex `i` to vertex `i + 1`.
use vstd::prelude::*;

verus! {

/// Why a line could not be built.
#[derive(Clone, Copy, PartialEq, Eq, Debug, Structural)]
pub enum LineError {
    /// A line needs at least two points.
    TooFewPoints,
}

impl LineError {
    /// A sentence that says what went wrong.
    pub fn message(&self) -> (r: &'static str)
        ensures
            r@ == "A line must have at least two points."@,
    {
        "A line must have at least two points."
    }
}

/// An ordered sequence of at least two vertices.
pub struct Line<P> {
    points: Vec<P>,
}

impl<P> View for Line<P> {
    type V = Seq<P>;

    closed spec fn view(&self) -> Seq<P> {
        self.points@
    }
}

/// The two halves of `s` split at vertex `i`, which both of them keep.
pub open spec fn halves_at_vertex<P>(s: Seq<P>, i: int) -> (Seq<P>, Seq<P>) {
    (s.subrange(0, i + 1), s.subrange(i, s.len() as int))
}

/// The two halves of `s` split at `q`, a point inside segment `i`: the first
/// runs through vertex `i` to `q`, the second from `q` through vertex `i + 1`.
pub open spec fn halves_in_segment<P>(s: Seq<P>, i: int, q: P) -> (Seq<P>, Seq<P>) {
    (s.subrange(0, i + 1).push(q), seq![q] + s.subrange(i + 1, s.len() as int))
}

impl<P> Line<P> {
    #[verifier::type_invariant]
    spec fn inv(self) -> bool {
        self.points.len() >= 2
    }
}

impl<P: Copy> Line<P> {
    /// Builds a line through `points`, in order; fails where there are
    /// fewer than two.
    pub fn new(points: Vec<P>) -> (r: Result<Line<P>, LineError>)
        ensures
            points.len() >= 2 ==> (r matches Ok(l) && l@ == points@),
            points.len() < 2 ==> r == Err::<Line<P>, LineError>(LineError::TooFewPoints),
    {
        if points.len() < 2 {
            Err(LineError::TooFewPoints)
        } else {
            Ok(Line { points })
        }
    }

    /// How many vertices the line has; never fewer than two.
    pub fn get_number_of_points(&self) -> (r: usize)
        ensures
            r == self@.len(),
            r >= 2,
    {
        proof {
            use_type_invariant(self);
        }
        self.points.len()
    }

    /// A copy of the first vertex.
    pub fn get_start(&self) -> (r: P)
        ensures
            r == self@[0],
    {
        proof {
            use_type_invariant(self);
        }
        self.points[0]
    }

    /// A copy of the last vertex.
    pub fn get_last(&self) -> (r: P)
        ensures
            r == self@.last(),
    {
        proof {
            use_type_invariant(self);
        }
        self.points[self.points.len() - 1]
    }

    /// The vertices, in order.
    pub fn points(&self) -> (r: &Vec<P>)
        ensures
            r@ == self@,
            r@.len() >= 2,
    {
        proof {
            use_type_invariant(self);
        }
        &self.points
    }

    /// Replaces the vertices with `points`, in order; where there are fewer
    /// than two the line is left as it was and the call fails.
    pub fn set_points(&mut self, points: Vec<P>) -> (r: Result<(), LineError>)
        ensures
            points.len() >= 2 ==> r is Ok && final(self)@ == points@,
            points.len() < 2 ==> r == Err::<(), LineError>(LineError::TooFewPoints)
                && final(self)@ == old(self)@,
    {
        if points.len() < 2 {
            Err(LineError::TooFewPoints)
        } else {
            self.points = points;
            Ok(())
        }
    }

    /// Splits the line at vertex `i`, which ends the first half and starts
    /// the second; `None` where a half would have fewer than two vertices,
    /// that is at the first and the last vertex.
    pub fn split_at_vertex(&self, i: usize) -> (r: Option<(Line<P>, Line<P>)>)
        ensures
            0 < i < self@.len() - 1 ==> (r matches Some((a, b)) && (a@, b@) == halves_at_vertex(
                self@,
                i as int,
            )),
            !(0 < i < self@.len() - 1) ==> r is None,
    {
        proof {
            use_type_invariant(self);
        }
        let n = self.points.len();
        if i == 0 || i >= n - 1 {
            return None;
        }
        let mut first: Vec<P> = Vec::new();
        let mut k: usize = 0;
        while k <= i
            invariant
                i < n - 1,
                n == self.points.len(),
                k <= i + 1,
                first@ == self.points@.subrange(0, k as int),
            decreases i + 1 - k,
        {
            first.push(self.points[k]);
            k = k + 1;
        }
        let mut second: Vec<P> = Vec::new();
        let mut k: usize = i;
        while k < n
            invariant
                i <= k <= n,
                n == self.points.len(),
                second@ == self.points@.subrange(i as int, k as int),
            decreases n - k,
        {
            second.push(self.points[k]);
            k = k + 1;
        }
        Some((Line { points: first }, Line { points: second }))
    }

    /// Splits the line at `q`, a point strictly inside segment `i`: the first
    /// half runs from the start through vertex `i` to `q`, the second from
    /// `q` through vertex `i + 1` to the end.
    pub fn split_in_segment(&self, i: usize, q: P) -> (r: (Line<P>, Line<P>))
        requires
            i < self@.len() - 1,
        ensures
            (r.0@, r.1@) == halves_in_segment(self@, i as int, q),
    {
        proof {
            use_type_invariant(self);
        }
        let n = self.points.len();
        let mut first: Vec<P> = Vec::new();
        let mut k: usize = 0;
        while k <= i
            invariant
                i < n - 1,
                n == self.points.len(),
                k <= i + 1,
                first@ == self.points@.subrange(0, k as int),
            decreases i + 1 - k,
        {
            first.push(self.points[k]);
            k = k + 1;
        }
        first.push(q);
        let mut second: Vec<P> = Vec::new();
        second.push(q);
        let mut k: usize = i + 1;
        while k < n
            invariant
                i + 1 <= k <= n,
                n == self.points.len(),
                second@ == seq![q] + self.points@.subrange(i + 1, k as int),
            decreases n - k,
        {
            second.push(self.points[k]);
            k = k + 1;
        }
        (Line { points: first }, Line { points: second })
    }
}

} // verus!
