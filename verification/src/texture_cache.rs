//! Texture cache for pixel widgets.
//!
//! A pixel widget hands the painter a tightly-packed RGBA8 buffer. The host
//! uploads it once as a texture, keeps the upload in this cache keyed by
//! `(widget_id, width, height)`, and reuses it on later frames. Entries not
//! requested during a frame are evicted at frame end, so closed buffers don't
//! leak textures. The cache is generic over the host's texture handle `H`;
//! uploading and drawing stay with the host.

use vstd::prelude::*;

use crate::decoration::WidgetPixels;

verus! {

broadcast use vstd::seq::group_seq_axioms;

/// Cache key: the widget's stable id plus its physical pixel size, so a
/// re-render at a new size always misses and re-uploads instead of
/// stretching a stale texture.
#[derive(Clone, Copy, Debug, PartialEq, Eq, Structural, Hash)]
pub struct TextureKey {
    pub widget_id: u64,
    pub width: u32,
    pub height: u32,
}

/// One cached texture and the frame it was last requested on.
#[derive(Debug)]
pub struct CacheEntry<H> {
    pub key: TextureKey,
    pub handle: H,
    pub last_used: u64,
}

/// Per-widget texture cache: at most one entry per key, plus the current
/// frame index.
#[derive(Debug)]
pub struct TextureCache<H> {
    entries: Vec<CacheEntry<H>>,
    frame: u64,
}

/// No two of `entries` share a key.
pub open spec fn keys_unique<H>(entries: Seq<CacheEntry<H>>) -> bool {
    forall|i: int, j: int|
        0 <= i < j < entries.len() ==> (#[trigger] entries[i]).key != (#[trigger] entries[j]).key
}

/// The entries of `entries` last used on `frame`, in order.
pub open spec fn used_on<H>(entries: Seq<CacheEntry<H>>, frame: u64) -> Seq<CacheEntry<H>> {
    entries.filter(|e: CacheEntry<H>| e.last_used == frame)
}

/// The buffer of a `width` x `height` widget is well formed: exactly
/// `width * height * 4` bytes, and not empty.
pub open spec fn pixels_ok(len: int, width: u32, height: u32) -> bool {
    len == width * height * 4 && len != 0
}

/// The cache key of a pixel buffer, or `None` when the buffer is malformed
/// (`rgba.len() != width * height * 4`, or empty) and must not be cached or
/// drawn.
pub fn texture_key(widget_id: u64, pixels: &WidgetPixels) -> (r: Option<TextureKey>)
    requires
        pixels.width * pixels.height * 4 <= usize::MAX,
    ensures
        r is Some <==> pixels_ok(pixels.rgba@.len() as int, pixels.width, pixels.height),
        r matches Some(k) ==> k == (TextureKey {
            widget_id,
            width: pixels.width,
            height: pixels.height,
        }),
{
    let w = pixels.width as usize;
    let h = pixels.height as usize;
    assert(w * h <= w * h * 4) by (nonlinear_arith);
    let expected = w * h * 4;
    if pixels.rgba.len() != expected || expected == 0 {
        None
    } else {
        Some(TextureKey { widget_id, width: pixels.width, height: pixels.height })
    }
}

impl<H> Default for TextureCache<H> {
    fn default() -> (c: Self)
        ensures
            c.spec_entries().len() == 0,
            c.spec_frame() == 0,
    {
        TextureCache::new()
    }
}

impl<H> TextureCache<H> {
    #[verifier::type_invariant]
    spec fn wf(self) -> bool {
        keys_unique(self.entries@)
    }

    /// The cached entries.
    pub closed spec fn spec_entries(self) -> Seq<CacheEntry<H>> {
        self.entries@
    }

    /// The current frame index.
    pub closed spec fn spec_frame(self) -> u64 {
        self.frame
    }

    /// An empty cache at frame 0.
    pub fn new() -> (c: Self)
        ensures
            c.spec_entries().len() == 0,
            c.spec_frame() == 0,
    {
        TextureCache { entries: Vec::new(), frame: 0 }
    }

    /// Advance to a new frame (wrapping), so [`Self::evict_unused`] can tell
    /// stale entries from ones requested this frame.
    pub fn begin_frame(&mut self)
        ensures
            final(self).spec_entries() == old(self).spec_entries(),
            final(self).spec_frame() == old(self).spec_frame().wrapping_add(1),
    {
        proof {
            use_type_invariant(&*self);
        }
        self.frame = self.frame.wrapping_add(1);
    }

    /// Number of cached textures.
    pub fn len(&self) -> (n: usize)
        ensures
            n == self.spec_entries().len(),
    {
        self.entries.len()
    }

    /// True when nothing is cached.
    pub fn is_empty(&self) -> (r: bool)
        ensures
            r == (self.spec_entries().len() == 0),
    {
        self.entries.len() == 0
    }

    /// Position of the entry for `key`.
    fn find(&self, key: TextureKey) -> (r: Option<usize>)
        ensures
            r is None <==> forall|i: int|
                0 <= i < self.spec_entries().len() ==> (#[trigger] self.spec_entries()[i]).key != key,
            r matches Some(i) ==> i < self.spec_entries().len() && self.spec_entries()[i as int].key
                == key,
    {
        let mut i: usize = 0;
        while i < self.entries.len()
            invariant
                i <= self.entries@.len(),
                forall|m: int| 0 <= m < i ==> (#[trigger] self.entries@[m]).key != key,
            decreases self.entries@.len() - i,
        {
            if self.entries[i].key == key {
                assert(self.spec_entries()[i as int].key == key);
                return Some(i);
            }
            i = i + 1;
        }
        None
    }

    /// The cached texture for `key`, if any, without touching it.
    pub fn get(&self, key: TextureKey) -> (r: Option<&H>)
        ensures
            r is None <==> forall|i: int|
                0 <= i < self.spec_entries().len() ==> (#[trigger] self.spec_entries()[i]).key != key,
            r matches Some(h) ==> exists|i: int|
                0 <= i < self.spec_entries().len() && #[trigger] self.spec_entries()[i].key == key
                    && self.spec_entries()[i].handle == *h,
            keys_unique(self.spec_entries()),
    {
        proof {
            use_type_invariant(self);
        }
        match self.find(key) {
            Some(i) => Some(&self.entries[i].handle),
            None => None,
        }
    }

    /// Request the texture for `key` this frame: on a hit, mark it used on
    /// the current frame and return `true`; on a miss change nothing and
    /// return `false` (the host then uploads and [`Self::insert`]s it).
    pub fn touch(&mut self, key: TextureKey) -> (hit: bool)
        ensures
            final(self).spec_frame() == old(self).spec_frame(),
            hit == exists|i: int|
                0 <= i < old(self).spec_entries().len() && (#[trigger] old(self).spec_entries()[i]).key
                    == key,
            final(self).spec_entries().len() == old(self).spec_entries().len(),
            forall|i: int|
                0 <= i < old(self).spec_entries().len() ==> {
                    let o = #[trigger] old(self).spec_entries()[i];
                    let n = final(self).spec_entries()[i];
                    &&& n.key == o.key
                    &&& n.handle == o.handle
                    &&& n.last_used == if o.key == key {
                        old(self).spec_frame()
                    } else {
                        o.last_used
                    }
                },
    {
        proof {
            use_type_invariant(&*self);
        }
        match self.find(key) {
            Some(i) => {
                let frame = self.frame;
                let ghost before = self.entries@;
                let mut entries = Vec::new();
                std::mem::swap(&mut entries, &mut self.entries);
                let mut e = entries.remove(i);
                e.last_used = frame;
                entries.insert(i, e);
                proof {
                    assert forall|a: int, b: int| 0 <= a < b < entries@.len() implies (
                    #[trigger] entries@[a]).key != (#[trigger] entries@[b]).key by {
                        assert(entries@[a].key == before[a].key);
                        assert(entries@[b].key == before[b].key);
                    }
                }
                self.entries = entries;
                proof {
                    assert forall|m: int| 0 <= m < before.len() implies {
                        let o = #[trigger] before[m];
                        let n = self.entries@[m];
                        &&& n.key == o.key
                        &&& n.handle == o.handle
                        &&& n.last_used == if o.key == key {
                            frame
                        } else {
                            o.last_used
                        }
                    } by {
                        if m != i {
                            assert(before[m].key != before[i as int].key);
                        }
                    }
                }
                true
            },
            None => false,
        }
    }

    /// Cache a freshly uploaded texture for `key`, marked used on the
    /// current frame; `key` must not be cached yet.
    pub fn insert(&mut self, key: TextureKey, handle: H)
        requires
            forall|i: int|
                0 <= i < old(self).spec_entries().len() ==> (#[trigger] old(self).spec_entries()[i]).key
                    != key,
        ensures
            final(self).spec_frame() == old(self).spec_frame(),
            final(self).spec_entries() == old(self).spec_entries().push(
                CacheEntry { key, handle, last_used: old(self).spec_frame() },
            ),
            keys_unique(final(self).spec_entries()),
    {
        proof {
            use_type_invariant(&*self);
        }
        let frame = self.frame;
        let ghost before = self.entries@;
        let mut entries = Vec::new();
        std::mem::swap(&mut entries, &mut self.entries);
        entries.push(CacheEntry { key, handle, last_used: frame });
        proof {
            assert forall|a: int, b: int| 0 <= a < b < entries@.len() implies (#[trigger] entries@[a]).key
                != (#[trigger] entries@[b]).key by {
                assert(entries@[a] == before[a]);
                if b < before.len() {
                    assert(entries@[b] == before[b]);
                } else {
                    assert(old(self).spec_entries()[a].key != key);
                }
            }
        }
        self.entries = entries;
    }

    /// Drop every entry not requested during the current frame, keeping the
    /// rest in order.
    pub fn evict_unused(&mut self)
        ensures
            final(self).spec_frame() == old(self).spec_frame(),
            final(self).spec_entries() == used_on(old(self).spec_entries(), old(self).spec_frame()),
            keys_unique(final(self).spec_entries()),
    {
        proof {
            use_type_invariant(&*self);
        }
        let frame = self.frame;
        let mut old_entries = Vec::new();
        std::mem::swap(&mut old_entries, &mut self.entries);
        let ghost all = old_entries@;
        let mut kept: Vec<CacheEntry<H>> = Vec::new();
        let mut rest = old_entries;
        let ghost mut taken: int = 0;
        proof {
            assert(all.subrange(0, 0) == Seq::<CacheEntry<H>>::empty());
            assert(rest@ == all.subrange(0, all.len() as int));
        }
        while rest.len() > 0
            invariant
                keys_unique(all),
                0 <= taken <= all.len(),
                rest@ == all.subrange(taken, all.len() as int),
                kept@ == used_on(all.subrange(0, taken), frame),
            decreases rest@.len(),
        {
            let e = rest.remove(0);
            proof {
                assert(e == all[taken]);
                assert(all.subrange(0, taken + 1) == all.subrange(0, taken).push(e));
                assert(rest@ == all.subrange(taken + 1, all.len() as int));
                all.subrange(0, taken).lemma_filter_push(e, |x: CacheEntry<H>| x.last_used == frame);
            }
            if e.last_used == frame {
                kept.push(e);
            }
            proof {
                taken = taken + 1;
            }
        }
        proof {
            assert(all.subrange(0, taken) == all);
            lemma_filter_keeps_unique(all, frame);
        }
        self.entries = kept;
    }
}

/// Filtering keeps keys unique.
proof fn lemma_filter_keeps_unique<H>(entries: Seq<CacheEntry<H>>, frame: u64)
    requires
        keys_unique(entries),
    ensures
        keys_unique(used_on(entries, frame)),
    decreases entries.len(),
{
    if entries.len() > 0 {
        let init = entries.drop_last();
        assert(keys_unique(init)) by {
            assert forall|i: int, j: int| 0 <= i < j < init.len() implies (#[trigger] init[i]).key != (
            #[trigger] init[j]).key by {
                assert(init[i] == entries[i] && init[j] == entries[j]);
            }
        }
        lemma_filter_keeps_unique(init, frame);
        assert(entries == init.push(entries.last()));
        init.lemma_filter_push(entries.last(), |x: CacheEntry<H>| x.last_used == frame);
        let f = used_on(init, frame);
        if entries.last().last_used == frame {
            assert forall|k: int| 0 <= k < f.len() implies (#[trigger] f[k]).key != entries.last().key by {
                init.lemma_filter_contains_rev(|x: CacheEntry<H>| x.last_used == frame, f[k]);
                let m = choose|m: int| 0 <= m < init.len() && init[m] == f[k];
                assert(entries[m] == init[m]);
            }
            let g = f.push(entries.last());
            assert forall|i: int, j: int| 0 <= i < j < g.len() implies (#[trigger] g[i]).key != (
            #[trigger] g[j]).key by {
                if j == g.len() - 1 {
                    assert(g[i] == f[i]);
                } else {
                    assert(g[i] == f[i] && g[j] == f[j]);
                }
            }
        }
    }
}

/// An entry requested this frame survives eviction and every entry left
/// afterwards was requested this frame: eviction keeps exactly the live
/// textures.
pub proof fn lemma_evict_keeps_exactly_used<H>(entries: Seq<CacheEntry<H>>, frame: u64)
    ensures
        forall|e: CacheEntry<H>| #[trigger] used_on(entries, frame).contains(e) <==> (entries.contains(e)
            && e.last_used == frame),
{
    assert forall|e: CacheEntry<H>| #[trigger] used_on(entries, frame).contains(e) <==> (entries.contains(e)
        && e.last_used == frame) by {
        if entries.contains(e) && e.last_used == frame {
            let i = choose|i: int| 0 <= i < entries.len() && entries[i] == e;
            entries.lemma_filter_contains(|x: CacheEntry<H>| x.last_used == frame, i);
        }
        if used_on(entries, frame).contains(e) {
            entries.lemma_filter_contains_rev(|x: CacheEntry<H>| x.last_used == frame, e);
            let f = used_on(entries, frame);
            let k = choose|k: int| 0 <= k < f.len() && f[k] == e;
            entries.lemma_filter_pred(|x: CacheEntry<H>| x.last_used == frame, k);
        }
    }
}

} // verus!
