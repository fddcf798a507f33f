use vstd::prelude::*;

verus! {

/// `p` is a power of two.
pub open spec fn is_pow2(p: int) -> bool
    decreases p,
{
    if p < 1 {
        false
    } else if p == 1 {
        true
    } else {
        p % 2 == 0 && is_pow2(p / 2)
    }
}

/// `p` is the smallest power of two that is at least `n` (and at least one).
pub open spec fn is_next_pow2(n: int, p: int) -> bool {
    &&& is_pow2(p)
    &&& p >= n
    &&& (p == 1 || p / 2 < n)
}

/// Of two powers of two, the smaller is at most half the larger.
pub proof fn lemma_pow2_lt(p: int, q: int)
    requires
        is_pow2(p),
        is_pow2(q),
        p < q,
    ensures
        p <= q / 2,
    decreases q,
{
    if p > 1 {
        lemma_pow2_lt(p / 2, q / 2);
    }
}

/// At most one power of two is the next one after `n`: the characterization
/// `is_next_pow2` in `get_or_recreate`'s contract therefore determines the
/// recorded size uniquely.
pub proof fn lemma_next_pow2_unique(n: int, p: int, q: int)
    requires
        is_next_pow2(n, p),
        is_next_pow2(n, q),
    ensures
        p == q,
{
    if p < q {
        lemma_pow2_lt(p, q);
    }
    if q < p {
        lemma_pow2_lt(q, p);
    }
}

/// The smallest power of two at least `size_req`.
fn next_pow2(size_req: u32) -> (p: u32)
    requires
        size_req <= 0x8000_0000,
    ensures
        is_next_pow2(size_req as int, p as int),
{
    let mut p: u32 = 1;
    while p < size_req
        invariant
            size_req <= 0x8000_0000,
            1 <= p,
            is_pow2(p as int),
            p == 1 || p / 2 < size_req,
        decreases 2 * size_req - p,
    {
        p = p * 2;
    }
    p
}

/// Caches a resource created for a requested size, recreating it only when a
/// request outgrows it. Sizes are rounded up to the next power of two so that
/// repeated small growths do not recreate the resource every time.
pub struct ResourceSizeHelper<T> {
    data: Option<T>,
    created_size: u32,
}

impl<T> ResourceSizeHelper<T> {
    /// The cached resource, if one was created.
    pub closed spec fn data_spec(self) -> Option<T> {
        self.data
    }

    /// The size the cached resource was created for; zero before the first
    /// creation.
    pub closed spec fn created_size_spec(self) -> u32 {
        self.created_size
    }

    pub fn new() -> (h: ResourceSizeHelper<T>)
        ensures
            h.data_spec() is None,
            h.created_size_spec() == 0,
    {
        ResourceSizeHelper { data: None, created_size: 0 }
    }

    /// Returns the cached resource, first (re)creating it through `create`
    /// when the request outgrows the recorded size or nothing is cached yet.
    /// On growth the recorded size becomes the next power of two at or above
    /// the request.
    pub fn get_or_recreate<F: FnOnce(u32) -> T>(&mut self, size_req: u32, create: F) -> (r: &T)
        requires
            size_req <= 0x8000_0000,
            forall|sz: u32|
                (if old(self).created_size_spec() < size_req {
                    is_next_pow2(size_req as int, sz as int)
                } else {
                    sz == old(self).created_size_spec()
                }) ==> #[trigger] create.requires((sz,)),
        ensures
            old(self).created_size_spec() < size_req ==> is_next_pow2(
                size_req as int,
                final(self).created_size_spec() as int,
            ),
            old(self).created_size_spec() >= size_req ==> final(self).created_size_spec() == old(
                self,
            ).created_size_spec(),
            final(self).data_spec() is Some,
            *r == final(self).data_spec()->Some_0,
            if old(self).created_size_spec() < size_req || old(self).data_spec() is None {
                create.ensures((final(self).created_size_spec(),), final(self).data_spec()->Some_0)
            } else {
                final(self).data_spec() == old(self).data_spec()
            },
    {
        let require_recreate: bool = if self.created_size < size_req {
            self.created_size = next_pow2(size_req);
            true
        } else {
            false
        };
        if require_recreate || self.data.is_none() {
            let value = create(self.created_size);
            self.data = Some(value);
        }
        match &self.data {
            Some(d) => d,
            None => vstd::pervasive::unreached(),
        }
    }

    /// The cached resource; callers must know one was created.
    pub fn get_existing(&self) -> (r: &T)
        requires
            self.data_spec() is Some,
        ensures
            *r == self.data_spec()->Some_0,
    {
        match &self.data {
            Some(d) => d,
            None => vstd::pervasive::unreached(),
        }
    }
}

impl<T> Default for ResourceSizeHelper<T> {
    fn default() -> (h: Self)
        ensures
            h.data_spec() is None,
            h.created_size_spec() == 0,
    {
        ResourceSizeHelper { data: None, created_size: 0 }
    }
}

} // verus!
