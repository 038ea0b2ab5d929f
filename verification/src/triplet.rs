use vstd::prelude::*;
use vstd::slice::slice_subrange;

// MO:DCA triplets: one length byte (counting itself), one id byte, then the
// body. Only TLE is triplet-based: NOP's data is UndfData, free-form bytes
// with no architectural definition, so it never comes here.
verus! {

/// Fully Qualified Name.
pub const T_FQN: u8 = 0x02;
/// Attribute Value.
pub const T_ATTR_VALUE: u8 = 0x36;
/// The FQN type that carries a TLE's attribute name.
pub const FQN_ATTRIBUTE_NAME: u8 = 0x0B;

/// One triplet: its id and its body (the bytes after the id).
#[derive(Debug, Clone, Copy)]
pub struct Triplet<'a> {
    pub id: u8,
    pub body: &'a [u8],
}

impl<'a> View for Triplet<'a> {
    type V = (u8, Seq<u8>);

    open spec fn view(&self) -> (u8, Seq<u8>) {
        (self.id, self.body@)
    }
}

/// The triplets of `data` from offset `pos` on, as `(id, body)`. The walk
/// stops at a length below 2 or past the end, where the data is not really a
/// triplet sequence, rather than resync into garbage.
pub open spec fn triplets_from(data: Seq<u8>, pos: int) -> Seq<(u8, Seq<u8>)>
    decreases data.len() - pos,
{
    if pos < 0 || data.len() - pos < 2 {
        seq![]
    } else {
        let len = data[pos] as int;
        if len < 2 || len > data.len() - pos {
            seq![]
        } else {
            seq![(data[pos + 1], data.subrange(pos + 2, pos + len))] + triplets_from(data, pos + len)
        }
    }
}

/// Where the `j`-th triplet of a walk from `start` begins: each one begins
/// where the one before it ends, its length byte counting itself.
pub open spec fn triplet_offset(data: Seq<u8>, start: int, j: nat) -> int
    decreases j,
{
    if j == 0 {
        start
    } else {
        let p = triplet_offset(data, start, (j - 1) as nat);
        p + data[p] as int
    }
}

/// A well-formed triplet begins at `p`: at least its length and id bytes
/// remain, and its length is at least 2 and runs past no end.
pub open spec fn triplet_fits_at(data: Seq<u8>, p: int) -> bool {
    0 <= p && data.len() - p >= 2 && data[p] >= 2 && data[p] as int <= data.len() - p
}

/// The triplet that begins at `p`, as `(id, body)`: the id is the byte
/// after the length, the body the rest of the length.
pub open spec fn triplet_at(data: Seq<u8>, p: int) -> (u8, Seq<u8>) {
    (data[p + 1], data.subrange(p + 2, p + data[p] as int))
}

proof fn lemma_triplet_offset_shift(data: Seq<u8>, start: int, j: nat)
    ensures
        triplet_offset(data, start, j + 1) == triplet_offset(data, start + data[start] as int, j),
    decreases j,
{
    let next = start + data[start] as int;
    assert(triplet_offset(data, start, 0) == start);
    if j > 0 {
        lemma_triplet_offset_shift(data, start, (j - 1) as nat);
        assert(((j + 1) - 1) as nat == j);
        let p = triplet_offset(data, start, j);
        assert(triplet_offset(data, start, j + 1) == p + data[p] as int);
        assert(triplet_offset(data, next, j) == triplet_offset(data, next, (j - 1) as nat)
            + data[triplet_offset(data, next, (j - 1) as nat)] as int);
    } else {
        assert(triplet_offset(data, start, 1) == start + data[start] as int);
    }
}

/// The walk offset by offset: the `j`-th triplet found from `start` is the
/// one at the `j`-th offset, its id the byte after the length and its body
/// the rest of its length; every triplet found is well formed, and the walk
/// stops at the first offset where none fits, never resyncing past it.
pub proof fn lemma_walk_by_offsets(data: Seq<u8>, start: int)
    ensures
        forall|j: int|
            0 <= j < triplets_from(data, start).len() ==> triplet_fits_at(
                data,
                #[trigger] triplet_offset(data, start, j as nat),
            ),
        forall|j: int|
            #![trigger triplets_from(data, start)[j]]
            0 <= j < triplets_from(data, start).len() ==> triplets_from(data, start)[j]
                == triplet_at(data, triplet_offset(data, start, j as nat)),
        !triplet_fits_at(data, triplet_offset(data, start, triplets_from(data, start).len())),
    decreases data.len() - start,
{
    let ts = triplets_from(data, start);
    if triplet_fits_at(data, start) {
        let next = start + data[start] as int;
        lemma_walk_by_offsets(data, next);
        let rest = triplets_from(data, next);
        assert(ts == seq![(data[start + 1], data.subrange(start + 2, next))] + rest);
        lemma_triplet_offset_shift(data, start, rest.len());
        assert forall|j: int| 0 <= j < ts.len() implies {
            let p = #[trigger] triplet_offset(data, start, j as nat);
            &&& triplet_fits_at(data, p)
            &&& ts[j] == triplet_at(data, p)
        } by {
            if j > 0 {
                lemma_triplet_offset_shift(data, start, (j - 1) as nat);
                assert(ts[j] == rest[j - 1]);
            } else {
                assert(triplet_offset(data, start, 0) == start);
                assert(ts[0] == (data[start + 1], data.subrange(start + 2, next)));
            }
        }
    } else {
        assert(ts.len() == 0);
        assert(triplet_offset(data, start, 0) == start);
    }
}

/// A triplet written out: its length byte, its id byte, its body.
pub open spec fn encode_triplet(t: (u8, Seq<u8>)) -> Seq<u8> {
    seq![(t.1.len() + 2) as u8, t.0] + t.1
}

pub open spec fn encode_triplets(ts: Seq<(u8, Seq<u8>)>) -> Seq<u8>
    decreases ts.len(),
{
    if ts.len() == 0 {
        seq![]
    } else {
        encode_triplet(ts[0]) + encode_triplets(ts.drop_first())
    }
}

/// The walk reads back exactly the bytes it steps over: the triplets found
/// from `pos`, written out again, are the bytes of `data` that follow `pos`,
/// and they never run past its end.
pub proof fn lemma_triplets_tile(data: Seq<u8>, pos: int)
    requires
        0 <= pos <= data.len(),
    ensures
        pos + encode_triplets(triplets_from(data, pos)).len() <= data.len(),
        data.subrange(pos, pos + encode_triplets(triplets_from(data, pos)).len()) == encode_triplets(
            triplets_from(data, pos),
        ),
    decreases data.len() - pos,
{
    let ts = triplets_from(data, pos);
    if data.len() - pos >= 2 {
        let len = data[pos] as int;
        if 2 <= len <= data.len() - pos {
            lemma_triplets_tile(data, pos + len);
            let t = (data[pos + 1], data.subrange(pos + 2, pos + len));
            let rest = triplets_from(data, pos + len);
            assert(ts == seq![t] + rest);
            assert(ts.drop_first() == rest);
            assert(ts[0] == t);
            let e = encode_triplets(rest);
            assert(encode_triplet(t) == data.subrange(pos, pos + len));
            assert(data.subrange(pos, pos + len + e.len()) == data.subrange(pos, pos + len)
                + data.subrange(pos + len, pos + len + e.len()));
        }
    }
}

pub open spec fn triplet_views<'a>(ts: Seq<Triplet<'a>>) -> Seq<(u8, Seq<u8>)> {
    ts.map_values(|t: Triplet<'a>| t@)
}

/// A walk over the triplets of a structured field's data.
pub struct TripletIter<'a> {
    data: &'a [u8],
    pos: usize,
}

impl<'a> TripletIter<'a> {
    #[verifier::type_invariant]
    spec fn within_data(&self) -> bool {
        self.pos <= self.data@.len()
    }

    /// The triplets the walk has still to yield.
    pub closed spec fn remaining(&self) -> Seq<(u8, Seq<u8>)> {
        triplets_from(self.data@, self.pos as int)
    }

    /// How many bytes the walk has still to look at.
    pub closed spec fn left(&self) -> int {
        self.data@.len() - self.pos
    }

    /// Yields the next triplet, or `None` once the data holds no further
    /// well-formed triplet (and from then on).
    pub fn next(&mut self) -> (t: Option<Triplet<'a>>)
        ensures
            t matches Some(t) ==> {
                &&& old(self).remaining().len() > 0
                &&& t@ == old(self).remaining()[0]
                &&& final(self).remaining() == old(self).remaining().drop_first()
            },
            t is None ==> old(self).remaining().len() == 0 && final(self).remaining().len() == 0,
            t is Some ==> final(self).left() < old(self).left(),
            final(self).left() >= 0,
    {
        proof {
            use_type_invariant(&*self);
        }
        let rest_len = self.data.len() - self.pos;
        if rest_len < 2 {
            return None;
        }
        let len = self.data[self.pos] as usize;
        // a length below 2 or past the end means the data is not really a
        // triplet sequence
        if len < 2 || len > rest_len {
            return None;
        }
        let id = self.data[self.pos + 1];
        let body = slice_subrange(self.data, self.pos + 2, self.pos + len);
        let ghost rest = triplets_from(self.data@, self.pos + len);
        self.pos = self.pos + len;
        proof {
            assert((seq![(id, body@)] + rest).drop_first() == rest);
        }
        Some(Triplet { id, body })
    }

    /// All the triplets the walk has still to yield, in order.
    pub fn collect(self) -> (ts: Vec<Triplet<'a>>)
        ensures
            triplet_views(ts@) == self.remaining(),
    {
        let ghost all = self.remaining();
        let mut it = self;
        let mut ts: Vec<Triplet<'a>> = Vec::new();
        loop
            invariant
                triplet_views(ts@) + it.remaining() == all,
                all == self.remaining(),
            decreases it.left(),
        {
            proof {
                use_type_invariant(&it);
            }
            let ghost before = it.remaining();
            match it.next() {
                Some(t) => {
                    let ghost old_ts = ts@;
                    ts.push(t);
                    proof {
                        use_type_invariant(&it);
                        assert(triplet_views(ts@) == triplet_views(old_ts).push(
                            t@,
                        ));
                        assert(before == seq![t@] + before.drop_first());
                    }
                },
                None => {
                    proof {
                        assert(it.remaining() == Seq::<(u8, Seq<u8>)>::empty());
                        assert(triplet_views(ts@) + it.remaining() == triplet_views(ts@));
                    }
                    return ts;
                },
            }
        }
    }

    /// The number of triplets the walk has still to yield.
    pub fn count(self) -> (n: usize)
        ensures
            n == self.remaining().len(),
    {
        let ts = self.collect();
        ts.len()
    }
}

/// A walk over the triplets of `data`, from its first byte.
pub fn triplets<'a>(data: &'a [u8]) -> (it: TripletIter<'a>)
    ensures
        it.remaining() == triplets_from(data@, 0),
        it.left() >= 0,
{
    TripletIter { data, pos: 0 }
}

/// A fully qualified name: its type and the name.
#[derive(Debug, Clone, Copy)]
pub struct Fqn<'a> {
    pub fqn_type: u8,
    pub name: &'a [u8],
}

impl<'a> Triplet<'a> {
    /// The body read as a Fully Qualified Name: the FQN type, then FQNFmt
    /// (which describes the name rather than carrying it), then the name.
    pub fn as_fqn(&self) -> (f: Option<Fqn<'a>>)
        ensures
            f is Some == (self.body@.len() >= 2),
            f matches Some(f) ==> f.fqn_type == self.body@[0] && f.name@ == self.body@.subrange(
                2,
                self.body@.len() as int,
            ),
    {
        if self.body.len() < 2 {
            return None;
        }
        Some(Fqn { fqn_type: self.body[0], name: slice_subrange(self.body, 2, self.body.len()) })
    }

    /// The body read as an Attribute Value: two reserved bytes, then the
    /// value, which may be absent entirely. That means a null attribute
    /// value, not a malformed triplet.
    pub fn as_attr_value(&self) -> (v: Option<&'a [u8]>)
        ensures
            v is Some == (self.body@.len() >= 2),
            v matches Some(v) ==> v@ == self.body@.subrange(2, self.body@.len() as int),
    {
        if self.body.len() < 2 {
            return None;
        }
        Some(slice_subrange(self.body, 2, self.body.len()))
    }
}

} // verus!
