use crate::utils::integer::Integer;
use vstd::prelude::*;

verus! {

/// Why no value could be read.
#[derive(Clone, Copy, Debug, PartialEq, Eq)]
pub enum InputError {
    /// The buffer holds no further token.
    Exhausted,
    /// The token is no number of the type asked for, or it names no node.
    Malformed,
}

/// `b` is a space, a tab, a line feed, a form feed or a carriage return.
pub open spec fn is_space(b: u8) -> bool {
    b == 0x20 || b == 0x09 || b == 0x0a || b == 0x0c || b == 0x0d
}

/// The first position from `pos` on that holds no white space, or the length.
pub open spec fn skip_spaces(buf: Seq<u8>, pos: int) -> int
    decreases buf.len() - pos,
{
    if 0 <= pos < buf.len() && is_space(buf[pos]) {
        skip_spaces(buf, pos + 1)
    } else {
        pos
    }
}

/// The first position from `pos` on that holds white space, or the length.
pub open spec fn skip_token(buf: Seq<u8>, pos: int) -> int
    decreases buf.len() - pos,
{
    if 0 <= pos < buf.len() && !is_space(buf[pos]) {
        skip_token(buf, pos + 1)
    } else {
        pos
    }
}

/// The number that the decimal digits `digits` write; `None` where one of
/// them is no digit.
pub open spec fn digits_value(digits: Seq<u8>) -> Option<nat>
    decreases digits.len(),
{
    if digits.len() == 0 {
        Some(0nat)
    } else {
        match digits_value(digits.drop_last()) {
            Some(v) => if 0x30 <= digits.last() <= 0x39 {
                Some((v * 10 + (digits.last() - 0x30)) as nat)
            } else {
                None
            },
            None => None,
        }
    }
}

/// The integer that `token` writes: decimal digits, at least one, behind an
/// optional `+` or, where the type has negative values, `-`; `None` where the
/// token is not of this form or the integer is not within the type's bounds.
pub open spec fn parse_spec<T: Integer>(token: Seq<u8>) -> Option<int> {
    let negative = token.len() > 0 && token[0] == 0x2d && T::min_int() < 0;
    let signed = negative || (token.len() > 0 && token[0] == 0x2b);
    let digits = if signed {
        token.drop_first()
    } else {
        token
    };
    if digits.len() == 0 {
        None
    } else {
        match digits_value(digits) {
            Some(v) => {
                let value = if negative {
                    -(v as int)
                } else {
                    v as int
                };
                if T::min_int() <= value <= T::max_int() {
                    Some(value)
                } else {
                    None
                }
            },
            None => None,
        }
    }
}

/// What `next` gives at the position `pos` of `buf`, and the position after it.
pub open spec fn next_spec<T: Integer>(buf: Seq<u8>, pos: int) -> (Result<int, InputError>, int) {
    let start = skip_spaces(buf, pos);
    let end = skip_token(buf, start);
    if start == end {
        (Err(InputError::Exhausted), end)
    } else {
        match parse_spec::<T>(buf.subrange(start, end)) {
            Some(v) => (Ok(v), end),
            None => (Err(InputError::Malformed), end),
        }
    }
}

/// The positions that `skip_spaces` and `skip_token` give lie between the
/// position that they start from and the length.
pub proof fn lemma_skip_bounds(buf: Seq<u8>, pos: int)
    requires
        0 <= pos <= buf.len(),
    ensures
        pos <= skip_spaces(buf, pos) <= buf.len(),
        pos <= skip_token(buf, pos) <= buf.len(),
    decreases buf.len() - pos,
{
    if pos < buf.len() {
        lemma_skip_bounds(buf, pos + 1);
    }
}

/// What `pair` gives at the position `pos` of `buf`, and the position after
/// it: two numbers, or the first error.
pub open spec fn pair_spec<T: Integer, U: Integer>(buf: Seq<u8>, pos: int) -> (
    Result<(int, int), InputError>,
    int,
) {
    let a = next_spec::<T>(buf, pos);
    match a.0 {
        Err(e) => (Err(e), a.1),
        Ok(x) => {
            let b = next_spec::<U>(buf, a.1);
            match b.0 {
                Err(e) => (Err(e), b.1),
                Ok(y) => (Ok((x, y)), b.1),
            }
        },
    }
}

/// What `triple` gives at the position `pos` of `buf`, and the position after
/// it: three numbers, or the first error.
pub open spec fn triple_spec<T: Integer, U: Integer, V: Integer>(buf: Seq<u8>, pos: int) -> (
    Result<(int, int, int), InputError>,
    int,
) {
    let ab = pair_spec::<T, U>(buf, pos);
    match ab.0 {
        Err(e) => (Err(e), ab.1),
        Ok(xy) => {
            let c = next_spec::<V>(buf, ab.1);
            match c.0 {
                Err(e) => (Err(e), c.1),
                Ok(z) => (Ok((xy.0, xy.1, z)), c.1),
            }
        },
    }
}

/// What `vector` gives for `n` numbers at the position `pos` of `buf`, and the
/// position after it.
pub open spec fn vector_spec<T: Integer>(buf: Seq<u8>, pos: int, n: nat) -> (
    Result<Seq<int>, InputError>,
    int,
)
    decreases n,
{
    if n == 0 {
        (Ok(Seq::empty()), pos)
    } else {
        let before = vector_spec::<T>(buf, pos, (n - 1) as nat);
        match before.0 {
            Err(e) => before,
            Ok(items) => {
                let last = next_spec::<T>(buf, before.1);
                match last.0 {
                    Err(e) => (Err(e), last.1),
                    Ok(x) => (Ok(items.push(x)), last.1),
                }
            },
        }
    }
}

/// The lists of neighbours `g` with an edge from `u` to `v`, and with one from
/// `v` to `u` where the edge goes both ways.
pub open spec fn with_edge(g: Seq<Seq<usize>>, u: int, v: int, is_one_way: bool) -> Seq<Seq<usize>> {
    let g1 = g.update(u, g[u].push(v as usize));
    if is_one_way {
        g1
    } else {
        g1.update(v, g1[v].push(u as usize))
    }
}

/// What `graph` gives for `n` nodes and `m` edges at the position `pos` of
/// `buf`, and the position after it. The nodes of an edge are written from 1.
pub open spec fn graph_spec(buf: Seq<u8>, pos: int, n: nat, m: nat, is_one_way: bool) -> (
    Result<Seq<Seq<usize>>, InputError>,
    int,
)
    decreases m,
{
    if m == 0 {
        (Ok(Seq::new(n, |i: int| Seq::<usize>::empty())), pos)
    } else {
        let before = graph_spec(buf, pos, n, (m - 1) as nat, is_one_way);
        match before.0 {
            Err(e) => before,
            Ok(g) => {
                let edge = pair_spec::<usize, usize>(buf, before.1);
                match edge.0 {
                    Err(e) => (Err(e), edge.1),
                    Ok(uv) => if 1 <= uv.0 <= n && 1 <= uv.1 <= n {
                        (Ok(with_edge(g, uv.0 - 1, uv.1 - 1, is_one_way)), edge.1)
                    } else {
                        (Err(InputError::Malformed), edge.1)
                    },
                }
            },
        }
    }
}

/// The lists of neighbours `g`, each neighbour with the weight of the edge to
/// it, with an edge of the weight `w` from `u` to `v`, and with one from `v` to
/// `u` where the edge goes both ways.
pub open spec fn with_weighted_edge(
    g: Seq<Seq<(usize, int)>>,
    u: int,
    v: int,
    w: int,
    is_one_way: bool,
) -> Seq<Seq<(usize, int)>> {
    let g1 = g.update(u, g[u].push((v as usize, w)));
    if is_one_way {
        g1
    } else {
        g1.update(v, g1[v].push((u as usize, w)))
    }
}

/// What `weighted_graph` gives for `n` nodes and `m` edges at the position
/// `pos` of `buf`, and the position after it.
pub open spec fn weighted_graph_spec<T: Integer>(
    buf: Seq<u8>,
    pos: int,
    n: nat,
    m: nat,
    is_one_way: bool,
    is_one_based: bool,
) -> (Result<Seq<Seq<(usize, int)>>, InputError>, int)
    decreases m,
{
    if m == 0 {
        (Ok(Seq::new(n, |i: int| Seq::<(usize, int)>::empty())), pos)
    } else {
        let before = weighted_graph_spec::<T>(buf, pos, n, (m - 1) as nat, is_one_way, is_one_based);
        match before.0 {
            Err(e) => before,
            Ok(g) => {
                let edge = triple_spec::<usize, usize, T>(buf, before.1);
                let base: int = if is_one_based {
                    1
                } else {
                    0
                };
                match edge.0 {
                    Err(e) => (Err(e), edge.1),
                    Ok(uvw) => if base <= uvw.0 < n + base && base <= uvw.1 < n + base {
                        (
                            Ok(
                                with_weighted_edge(
                                    g,
                                    uvw.0 - base,
                                    uvw.1 - base,
                                    uvw.2,
                                    is_one_way,
                                ),
                            ),
                            edge.1,
                        )
                    } else {
                        (Err(InputError::Malformed), edge.1)
                    },
                }
            },
        }
    }
}

/// The integers that the weights of the lists of neighbours stand for.
pub open spec fn weights_as_int<T: Integer>(g: Seq<Vec<(usize, T)>>) -> Seq<Seq<(usize, int)>> {
    g.map_values(|row: Vec<(usize, T)>| row@.map_values(|e: (usize, T)| (e.0, e.1.as_int())))
}

/// A reader of the numbers in a buffer of text, which white space separates.
pub struct Input {
    buf: Vec<u8>,
    pos: usize,
}

impl Default for Input {
    fn default() -> (s: Self)
        ensures
            s.wf(),
            s.rest() == Seq::<u8>::empty(),
    {
        Self::new()
    }
}

impl Input {
    /// The bytes of the buffer.
    pub closed spec fn bytes(&self) -> Seq<u8> {
        self.buf@
    }

    /// The position that the next token is looked for from.
    pub closed spec fn position(&self) -> int {
        self.pos as int
    }

    /// The bytes that are still to be read.
    pub open spec fn rest(&self) -> Seq<u8> {
        self.bytes().skip(self.position())
    }

    /// The representation invariant: the position lies within the buffer.
    pub closed spec fn wf(&self) -> bool {
        self.pos <= self.buf@.len()
    }

    /// A reader with an empty buffer.
    pub fn new() -> (s: Self)
        ensures
            s.wf(),
            s.bytes() == Seq::<u8>::empty(),
            s.position() == 0,
    {
        Self { buf: Vec::new(), pos: 0 }
    }

    /// The number of bytes of the buffer that have been read.
    pub fn offset(&self) -> (r: usize)
        requires
            self.wf(),
        ensures
            r == self.position(),
    {
        self.pos
    }

    /// Puts `bytes` in the place of the buffer, to be read from their start.
    pub fn feed(&mut self, bytes: &[u8])
        ensures
            final(self).wf(),
            final(self).bytes() == bytes@,
            final(self).position() == 0,
    {
        let mut buf: Vec<u8> = Vec::new();
        let mut i: usize = 0;
        while i < bytes.len()
            invariant
                i <= bytes@.len(),
                buf@ == bytes@.subrange(0, i as int),
            decreases bytes@.len() - i,
        {
            buf.push(bytes[i]);
            proof {
                assert(buf@ =~= bytes@.subrange(0, i + 1));
            }
            i += 1;
        }
        proof {
            assert(buf@ =~= bytes@);
        }
        self.buf = buf;
        self.pos = 0;
    }

    /// The bounds of the next token, which is behind it afterwards; `None`
    /// where only white space is left.
    pub fn next_token(&mut self) -> (r: Option<(usize, usize)>)
        requires
            old(self).wf(),
        ensures
            final(self).wf(),
            final(self).bytes() == old(self).bytes(),
            final(self).position() == skip_token(
                old(self).bytes(),
                skip_spaces(old(self).bytes(), old(self).position()),
            ),
            match r {
                Some((start, end)) => start == skip_spaces(old(self).bytes(), old(self).position())
                    && end == final(self).position() && start < end <= old(self).bytes().len(),
                None => skip_spaces(old(self).bytes(), old(self).position())
                    == final(self).position(),
            },
    {
        let ghost from = self.pos as int;
        while self.pos < self.buf.len() && is_ascii_whitespace(self.buf[self.pos])
            invariant
                self.buf == old(self).buf,
                from <= self.pos <= self.buf@.len(),
                skip_spaces(self.buf@, self.pos as int) == skip_spaces(self.buf@, from),
            decreases self.buf@.len() - self.pos,
        {
            self.pos += 1;
        }
        let start = self.pos;
        while self.pos < self.buf.len() && !is_ascii_whitespace(self.buf[self.pos])
            invariant
                self.buf == old(self).buf,
                start <= self.pos <= self.buf@.len(),
                skip_token(self.buf@, self.pos as int) == skip_token(self.buf@, start as int),
            decreases self.buf@.len() - self.pos,
        {
            self.pos += 1;
        }
        if start == self.pos {
            None
        } else {
            Some((start, self.pos))
        }
    }

    /// The number that the next token writes, which is behind it afterwards.
    pub fn next<T: Integer>(&mut self) -> (r: Result<T, InputError>)
        requires
            old(self).wf(),
        ensures
            final(self).wf(),
            final(self).bytes() == old(self).bytes(),
            final(self).position() == next_spec::<T>(old(self).bytes(), old(self).position()).1,
            match r {
                Ok(v) => Ok::<int, InputError>(v.as_int()) == next_spec::<T>(
                    old(self).bytes(),
                    old(self).position(),
                ).0,
                Err(e) => Err::<int, InputError>(e) == next_spec::<T>(
                    old(self).bytes(),
                    old(self).position(),
                ).0,
            },
    {
        match self.next_token() {
            None => Err(InputError::Exhausted),
            Some((start, end)) => match parse::<T>(&self.buf, start, end) {
                Some(v) => Ok(v),
                None => Err(InputError::Malformed),
            },
        }
    }

    /// The two numbers that the next two tokens write.
    pub fn pair<T: Integer, U: Integer>(&mut self) -> (r: Result<(T, U), InputError>)
        requires
            old(self).wf(),
        ensures
            final(self).wf(),
            final(self).bytes() == old(self).bytes(),
            final(self).position() == pair_spec::<T, U>(old(self).bytes(), old(self).position()).1,
            match r {
                Ok(v) => Ok::<(int, int), InputError>((v.0.as_int(), v.1.as_int())) == pair_spec::<
                    T,
                    U,
                >(old(self).bytes(), old(self).position()).0,
                Err(e) => Err::<(int, int), InputError>(e) == pair_spec::<T, U>(
                    old(self).bytes(),
                    old(self).position(),
                ).0,
            },
    {
        let a = match self.next::<T>() {
            Ok(a) => a,
            Err(e) => {
                return Err(e);
            },
        };
        match self.next::<U>() {
            Ok(b) => Ok((a, b)),
            Err(e) => Err(e),
        }
    }

    /// The three numbers that the next three tokens write.
    pub fn triple<T: Integer, U: Integer, V: Integer>(&mut self) -> (r: Result<
        (T, U, V),
        InputError,
    >)
        requires
            old(self).wf(),
        ensures
            final(self).wf(),
            final(self).bytes() == old(self).bytes(),
            final(self).position() == triple_spec::<T, U, V>(
                old(self).bytes(),
                old(self).position(),
            ).1,
            match r {
                Ok(v) => Ok::<(int, int, int), InputError>(
                    (v.0.as_int(), v.1.as_int(), v.2.as_int()),
                ) == triple_spec::<T, U, V>(old(self).bytes(), old(self).position()).0,
                Err(e) => Err::<(int, int, int), InputError>(e) == triple_spec::<T, U, V>(
                    old(self).bytes(),
                    old(self).position(),
                ).0,
            },
    {
        let (a, b) = match self.pair::<T, U>() {
            Ok(ab) => ab,
            Err(e) => {
                return Err(e);
            },
        };
        match self.next::<V>() {
            Ok(c) => Ok((a, b, c)),
            Err(e) => Err(e),
        }
    }

    /// The `n` numbers that the next `n` tokens write.
    pub fn vector<T: Integer>(&mut self, n: usize) -> (r: Result<Vec<T>, InputError>)
        requires
            old(self).wf(),
        ensures
            final(self).wf(),
            final(self).bytes() == old(self).bytes(),
            final(self).position() == vector_spec::<T>(
                old(self).bytes(),
                old(self).position(),
                n as nat,
            ).1,
            match r {
                Ok(v) => Ok::<Seq<int>, InputError>(v@.map_values(|x: T| x.as_int()))
                    == vector_spec::<T>(old(self).bytes(), old(self).position(), n as nat).0,
                Err(e) => Err::<Seq<int>, InputError>(e) == vector_spec::<T>(
                    old(self).bytes(),
                    old(self).position(),
                    n as nat,
                ).0,
            },
    {
        let ghost buf = self.buf@;
        let ghost from = self.pos as int;
        let mut res: Vec<T> = Vec::new();
        let mut k: usize = 0;
        proof {
            assert(res@.map_values(|x: T| x.as_int()) =~= Seq::<int>::empty());
        }
        while k < n
            invariant
                k <= n,
                self.wf(),
                self.buf@ == buf,
                buf == old(self).bytes(),
                from == old(self).position(),
                vector_spec::<T>(buf, from, k as nat) == (
                    Ok::<Seq<int>, InputError>(res@.map_values(|x: T| x.as_int())),
                    self.pos as int,
                ),
            decreases n - k,
        {
            let ghost before = res@.map_values(|x: T| x.as_int());
            match self.next::<T>() {
                Ok(x) => {
                    res.push(x);
                    proof {
                        assert(res@.map_values(|x: T| x.as_int()) =~= before.push(x.as_int()));
                    }
                },
                Err(e) => {
                    proof {
                        lemma_vector_fails::<T>(buf, from, (k + 1) as nat, n as nat);
                    }
                    return Err(e);
                },
            }
            k += 1;
        }
        Ok(res)
    }

    /// The lists of neighbours of a graph of `n` nodes, of which the next
    /// `2 * m` tokens write the `m` edges, each by its two nodes, counted from 1.
    pub fn graph(&mut self, n: usize, m: usize, is_one_way: bool) -> (r: Result<
        Vec<Vec<usize>>,
        InputError,
    >)
        requires
            old(self).wf(),
        ensures
            final(self).wf(),
            final(self).bytes() == old(self).bytes(),
            final(self).position() == graph_spec(
                old(self).bytes(),
                old(self).position(),
                n as nat,
                m as nat,
                is_one_way,
            ).1,
            match r {
                Ok(g) => Ok::<Seq<Seq<usize>>, InputError>(g@.map_values(|row: Vec<usize>| row@))
                    == graph_spec(
                    old(self).bytes(),
                    old(self).position(),
                    n as nat,
                    m as nat,
                    is_one_way,
                ).0,
                Err(e) => Err::<Seq<Seq<usize>>, InputError>(e) == graph_spec(
                    old(self).bytes(),
                    old(self).position(),
                    n as nat,
                    m as nat,
                    is_one_way,
                ).0,
            },
    {
        let ghost buf = self.buf@;
        let ghost from = self.pos as int;
        let mut graph: Vec<Vec<usize>> = Vec::new();
        let mut i: usize = 0;
        while i < n
            invariant
                i <= n,
                graph@.len() == i,
                forall|j: int| 0 <= j < i ==> (#[trigger] graph@[j])@ == Seq::<usize>::empty(),
            decreases n - i,
        {
            graph.push(Vec::new());
            i += 1;
        }
        proof {
            assert(graph@.map_values(|row: Vec<usize>| row@) =~= Seq::new(
                n as nat,
                |i: int| Seq::<usize>::empty(),
            ));
        }
        let mut k: usize = 0;
        while k < m
            invariant
                k <= m,
                self.wf(),
                self.buf@ == buf,
                buf == old(self).bytes(),
                from == old(self).position(),
                graph@.len() == n,
                graph_spec(buf, from, n as nat, k as nat, is_one_way) == (
                    Ok::<Seq<Seq<usize>>, InputError>(graph@.map_values(|row: Vec<usize>| row@)),
                    self.pos as int,
                ),
            decreases m - k,
        {
            let ghost before = graph@.map_values(|row: Vec<usize>| row@);
            let (u, v) = match self.pair::<usize, usize>() {
                Ok(uv) => uv,
                Err(e) => {
                    proof {
                        lemma_graph_fails(buf, from, n as nat, (k + 1) as nat, m as nat, is_one_way);
                    }
                    return Err(e);
                },
            };
            if u < 1 || u > n || v < 1 || v > n {
                proof {
                    lemma_graph_fails(buf, from, n as nat, (k + 1) as nat, m as nat, is_one_way);
                }
                return Err(InputError::Malformed);
            }
            graph[u - 1].push(v - 1);
            if !is_one_way {
                graph[v - 1].push(u - 1);
            }
            proof {
                assert(graph@.map_values(|row: Vec<usize>| row@) =~= with_edge(
                    before,
                    u - 1,
                    v - 1,
                    is_one_way,
                ));
            }
            k += 1;
        }
        Ok(graph)
    }

    /// The lists of neighbours of a graph of `n` nodes, each neighbour with the
    /// weight of the edge to it, of which the next `3 * m` tokens write the `m`
    /// edges, each by its two nodes and its weight.
    pub fn weighted_graph<T: Integer>(
        &mut self,
        n: usize,
        m: usize,
        is_one_way: bool,
        is_one_based: bool,
    ) -> (r: Result<Vec<Vec<(usize, T)>>, InputError>)
        requires
            old(self).wf(),
        ensures
            final(self).wf(),
            final(self).bytes() == old(self).bytes(),
            final(self).position() == weighted_graph_spec::<T>(
                old(self).bytes(),
                old(self).position(),
                n as nat,
                m as nat,
                is_one_way,
                is_one_based,
            ).1,
            match r {
                Ok(g) => Ok::<Seq<Seq<(usize, int)>>, InputError>(weights_as_int(g@))
                    == weighted_graph_spec::<T>(
                    old(self).bytes(),
                    old(self).position(),
                    n as nat,
                    m as nat,
                    is_one_way,
                    is_one_based,
                ).0,
                Err(e) => Err::<Seq<Seq<(usize, int)>>, InputError>(e) == weighted_graph_spec::<T>(
                    old(self).bytes(),
                    old(self).position(),
                    n as nat,
                    m as nat,
                    is_one_way,
                    is_one_based,
                ).0,
            },
    {
        let ghost buf = self.buf@;
        let ghost from = self.pos as int;
        let mut graph: Vec<Vec<(usize, T)>> = Vec::new();
        let mut i: usize = 0;
        while i < n
            invariant
                i <= n,
                graph@.len() == i,
                forall|j: int| 0 <= j < i ==> (#[trigger] graph@[j])@ == Seq::<(usize, T)>::empty(),
            decreases n - i,
        {
            graph.push(Vec::new());
            i += 1;
        }
        proof {
            assert(weights_as_int(graph@) =~= Seq::new(
                n as nat,
                |i: int| Seq::<(usize, int)>::empty(),
            )) by {
                assert forall|j: int| 0 <= j < n implies #[trigger] weights_as_int(graph@)[j]
                    =~= Seq::<(usize, int)>::empty() by {}
            }
        }
        let mut k: usize = 0;
        while k < m
            invariant
                k <= m,
                self.wf(),
                self.buf@ == buf,
                buf == old(self).bytes(),
                from == old(self).position(),
                graph@.len() == n,
                weighted_graph_spec::<T>(buf, from, n as nat, k as nat, is_one_way, is_one_based)
                    == (
                    Ok::<Seq<Seq<(usize, int)>>, InputError>(weights_as_int(graph@)),
                    self.pos as int,
                ),
            decreases m - k,
        {
            let ghost before = weights_as_int(graph@);
            let ghost rows = graph@;
            let (u, v, w) = match self.triple::<usize, usize, T>() {
                Ok(uvw) => uvw,
                Err(e) => {
                    proof {
                        lemma_weighted_graph_fails::<T>(
                            buf,
                            from,
                            n as nat,
                            (k + 1) as nat,
                            m as nat,
                            is_one_way,
                            is_one_based,
                        );
                    }
                    return Err(e);
                },
            };
            let base: usize = if is_one_based {
                1
            } else {
                0
            };
            if u < base || u - base >= n || v < base || v - base >= n {
                proof {
                    lemma_weighted_graph_fails::<T>(
                        buf,
                        from,
                        n as nat,
                        (k + 1) as nat,
                        m as nat,
                        is_one_way,
                        is_one_based,
                    );
                }
                return Err(InputError::Malformed);
            }
            let u = u - base;
            let v = v - base;
            graph[u].push((v, w));
            if !is_one_way {
                graph[v].push((u, w));
            }
            proof {
                let after = weights_as_int(graph@);
                let want = with_weighted_edge(before, u as int, v as int, w.as_int(), is_one_way);
                assert(after.len() == want.len());
                assert forall|j: int| 0 <= j < after.len() implies #[trigger] after[j]
                    =~= want[j] by {
                    assert(before[j] == rows[j]@.map_values(|e: (usize, T)| (e.0, e.1.as_int())));
                }
                assert(after =~= want);
            }
            k += 1;
        }
        Ok(graph)
    }
}

/// Once the numbers have run out, they have run out for every larger count.
proof fn lemma_vector_fails<T: Integer>(buf: Seq<u8>, pos: int, k: nat, n: nat)
    requires
        k <= n,
        vector_spec::<T>(buf, pos, k).0 is Err,
    ensures
        vector_spec::<T>(buf, pos, n) == vector_spec::<T>(buf, pos, k),
    decreases n - k,
{
    if k < n {
        lemma_vector_fails::<T>(buf, pos, k, (n - 1) as nat);
    }
}

/// Once an edge could not be read, none can be for every larger count.
proof fn lemma_graph_fails(buf: Seq<u8>, pos: int, n: nat, k: nat, m: nat, is_one_way: bool)
    requires
        k <= m,
        graph_spec(buf, pos, n, k, is_one_way).0 is Err,
    ensures
        graph_spec(buf, pos, n, m, is_one_way) == graph_spec(buf, pos, n, k, is_one_way),
    decreases m - k,
{
    if k < m {
        lemma_graph_fails(buf, pos, n, k, (m - 1) as nat, is_one_way);
    }
}

/// Once an edge could not be read, none can be for every larger count.
proof fn lemma_weighted_graph_fails<T: Integer>(
    buf: Seq<u8>,
    pos: int,
    n: nat,
    k: nat,
    m: nat,
    is_one_way: bool,
    is_one_based: bool,
)
    requires
        k <= m,
        weighted_graph_spec::<T>(buf, pos, n, k, is_one_way, is_one_based).0 is Err,
    ensures
        weighted_graph_spec::<T>(buf, pos, n, m, is_one_way, is_one_based) == weighted_graph_spec::<
            T,
        >(buf, pos, n, k, is_one_way, is_one_based),
    decreases m - k,
{
    if k < m {
        lemma_weighted_graph_fails::<T>(buf, pos, n, k, (m - 1) as nat, is_one_way, is_one_based);
    }
}

/// Whether `b` is white space.
fn is_ascii_whitespace(b: u8) -> (r: bool)
    ensures
        r == is_space(b),
{
    b == 0x20 || b == 0x09 || b == 0x0a || b == 0x0c || b == 0x0d
}

/// The integer that the bytes of `buf` from `start` up to `end` write.
fn parse<T: Integer>(buf: &Vec<u8>, start: usize, end: usize) -> (r: Option<T>)
    requires
        start < end <= buf@.len(),
    ensures
        match r {
            Some(v) => parse_spec::<T>(buf@.subrange(start as int, end as int)) == Some(v.as_int()),
            None => parse_spec::<T>(buf@.subrange(start as int, end as int)) is None,
        },
{
    let ghost token = buf@.subrange(start as int, end as int);
    proof {
        T::lemma_bounds();
    }
    let signed_type = T::min_value().less(T::zero());
    let negative = buf[start] == 0x2d && signed_type;
    let signed = negative || buf[start] == 0x2b;
    let first = if signed {
        start + 1
    } else {
        start
    };
    let ghost digits = if signed {
        token.drop_first()
    } else {
        token
    };
    proof {
        assert(token[0] == buf@[start as int]);
        assert(digits =~= buf@.subrange(first as int, end as int));
    }
    if first == end {
        return None;
    }
    let ten = T::from_i32(10);
    let mut value = T::zero();
    let mut i: usize = first;
    proof {
        assert(digits.subrange(0, 0) =~= Seq::<u8>::empty());
    }
    while i < end
        invariant
            start < end,
            first < end,
            first <= i <= end <= buf@.len(),
            token == buf@.subrange(start as int, end as int),
            negative == (token[0] == 0x2d && T::min_int() < 0),
            signed == (negative || token[0] == 0x2b),
            digits == if signed {
                token.drop_first()
            } else {
                token
            },
            digits == buf@.subrange(first as int, end as int),
            ten.as_int() == 10,
            T::min_int() <= 0,
            127 <= T::max_int(),
            T::min_int() == 0 || T::min_int() == -T::max_int() - 1,
            negative ==> T::min_int() < 0,
            digits_value(digits.subrange(0, i - first)) matches Some(v) && value.as_int() == if negative {
                -(v as int)
            } else {
                v as int
            },
        decreases end - i,
    {
        let b = buf[i];
        let ghost sofar = digits.subrange(0, i - first);
        let ghost more = digits.subrange(0, i - first + 1);
        proof {
            assert(more.drop_last() =~= sofar);
            assert(more.last() == b);
            value.lemma_range();
        }
        if b < 0x30 || b > 0x39 {
            proof {
                assert(digits_value(more) is None);
                lemma_digits_stay_none(digits, i - first + 1);
            }
            return None;
        }
        let digit = T::from_i32((b - 0x30) as i32);
        let ghost v = digits_value(sofar)->0 as int;
        let ghost d = (b - 0x30) as int;
        proof {
            assert(digits_value(more) == Some((v * 10 + d) as nat));
            crate::math::euclidean::lemma_trunc_div_rem(T::min_int(), 10);
            crate::math::euclidean::lemma_trunc_div_rem(T::max_int(), 10);
        }
        // the next value is value * 10 + digit, or value * 10 - digit below 0,
        // unless that leaves the bounds
        let out_of_bounds = if negative {
            let limit = T::min_value().quot(ten);
            let last = T::zero().minus(T::min_value().rem(ten));
            value.less(limit) || (value.same(limit) && last.less(digit))
        } else {
            let limit = T::max_value().quot(ten);
            let last = T::max_value().rem(ten);
            limit.less(value) || (value.same(limit) && last.less(digit))
        };
        proof {
            let q = crate::utils::integer::trunc_div(T::max_int(), 10);
            let r = crate::utils::integer::trunc_rem(T::max_int(), 10);
            let qn = crate::utils::integer::trunc_div(T::min_int(), 10);
            let rn = crate::utils::integer::trunc_rem(T::min_int(), 10);
            if negative {
                assert(out_of_bounds <==> -(v * 10 + d) < T::min_int()) by (nonlinear_arith)
                    requires
                        T::min_int() == 10 * qn + rn,
                        -10 < rn <= 0,
                        0 <= d <= 9,
                        out_of_bounds <==> (-v < qn || (-v == qn && -rn < d)),
                ;
            } else {
                assert(out_of_bounds <==> v * 10 + d > T::max_int()) by (nonlinear_arith)
                    requires
                        T::max_int() == 10 * q + r,
                        0 <= r < 10,
                        0 <= d <= 9,
                        out_of_bounds <==> (q < v || (v == q && r < d)),
                ;
            }
        }
        if out_of_bounds {
            proof {
                lemma_digits_grow(digits, i - first + 1);
            }
            return None;
        }
        proof {
            assert(T::min_int() <= value.as_int() * 10 <= T::max_int()) by (nonlinear_arith)
                requires
                    negative ==> value.as_int() == -v && T::min_int() <= -(v * 10 + d),
                    !negative ==> value.as_int() == v && v * 10 + d <= T::max_int(),
                    0 <= d,
                    0 <= v,
                    T::min_int() <= 0 <= T::max_int(),
            ;
        }
        value = if negative {
            value.times(ten).minus(digit)
        } else {
            value.times(ten).plus(digit)
        };
        i += 1;
    }
    proof {
        assert(digits.subrange(0, i - first) =~= digits);
        value.lemma_range();
    }
    Some(value)
}

/// Where a beginning of `digits` writes no number, `digits` writes none.
proof fn lemma_digits_stay_none(digits: Seq<u8>, k: int)
    requires
        0 <= k <= digits.len(),
        digits_value(digits.subrange(0, k)) is None,
    ensures
        digits_value(digits) is None,
    decreases digits.len() - k,
{
    if k < digits.len() {
        assert(digits.subrange(0, k + 1).drop_last() =~= digits.subrange(0, k));
        lemma_digits_stay_none(digits, k + 1);
    } else {
        assert(digits.subrange(0, k) =~= digits);
    }
}

/// Where `digits` writes a number, it is at least the number that a beginning
/// of `digits` writes.
proof fn lemma_digits_grow(digits: Seq<u8>, k: int)
    requires
        0 <= k <= digits.len(),
    ensures
        digits_value(digits) matches Some(total) ==> (digits_value(
            digits.subrange(0, k),
        ) matches Some(v) && v <= total),
    decreases digits.len() - k,
{
    if k < digits.len() {
        assert(digits.subrange(0, k + 1).drop_last() =~= digits.subrange(0, k));
        lemma_digits_grow(digits, k + 1);
    } else {
        assert(digits.subrange(0, k) =~= digits);
    }
}

} // verus!
