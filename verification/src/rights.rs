//! The client-side rights store: how many views remain for each image the
//! client holds. Views are merged by addition when a carrier or a grant
//! arrives and consumed one by one on viewing; an exhausted entry stays at
//! zero until recharged. Reading and writing the store's file, and showing
//! the images, happen outside the library.

use vstd::prelude::*;

use crate::carrier::{b64_decode, b64_decode_of, decode_access_rights, png_decode, png_decode_of,
    stored_views, CarrierError, Image};
use crate::kvlist::{keys_unique, kv_map, lemma_kv_map_dom, lemma_kv_map_index, lemma_kv_map_push,
    lemma_kv_map_update};

verus! {

/// The views an image has left: zero when the image was never stored.
pub open spec fn remaining(m: Map<Seq<char>, u32>, id: Seq<char>) -> u32 {
    if m.dom().contains(id) {
        m[id]
    } else {
        0
    }
}

/// What one viewing attempt did.
pub enum ViewOutcome {
    /// A view was consumed: reveal and present the hidden image.
    Revealed,
    /// No views left: present only the uninformative outer carrier.
    NoRights,
}

#[derive(Debug)]
pub enum StoreError {
    /// The received text is not base64.
    NotBase64,
    /// The received bytes are not a PNG image.
    NotPng,
    /// The carrier has no rows to decode.
    NoRows,
    /// Merging the carrier's views would overflow the counter.
    TooManyViews,
}

/// `image_id -> remaining views`, entries in first-stored order.
pub struct RightsStore {
    entries: Vec<(String, u32)>,
}

impl RightsStore {
    pub closed spec fn wf(&self) -> bool {
        keys_unique(self.entries@)
    }

    pub closed spec fn views(&self) -> Map<Seq<char>, u32> {
        kv_map(self.entries@)
    }

    pub fn new() -> (r: RightsStore)
        ensures
            r.wf(),
            r.views() =~= Map::<Seq<char>, u32>::empty(),
    {
        RightsStore { entries: Vec::new() }
    }

    /// The position of an image's entry, if it has one.
    fn position_of(&self, image_id: &String) -> (r: Option<usize>)
        ensures
            r matches Some(i) ==> i < self.entries@.len() && self.entries@[i as int].0@
                == image_id@,
            r is None ==> forall|i: int|
                0 <= i < self.entries@.len() ==> self.entries@[i].0@ != image_id@,
    {
        let mut i: usize = 0;
        while i < self.entries.len()
            invariant
                i <= self.entries@.len(),
                forall|j: int| 0 <= j < i ==> self.entries@[j].0@ != image_id@,
            decreases self.entries@.len() - i,
        {
            if self.entries[i].0 == *image_id {
                return Some(i);
            }
            i += 1;
        }
        None
    }

    /// The remaining views of an image, `None` when it was never stored.
    pub fn get_views(&self, image_id: &String) -> (r: Option<u32>)
        requires
            self.wf(),
        ensures
            self.views().dom().contains(image_id@) ==> r == Some(self.views()[image_id@]),
            !self.views().dom().contains(image_id@) ==> r is None,
    {
        proof {
            lemma_kv_map_dom(self.entries@, image_id@);
        }
        match self.position_of(image_id) {
            Some(i) => {
                proof {
                    lemma_kv_map_index(self.entries@, i as int);
                }
                Some(self.entries[i].1)
            },
            None => None,
        }
    }

    /// Merges `delta` further views into an image's entry: the remaining
    /// count grows by exactly `delta`.
    pub fn add_views(&mut self, image_id: &String, delta: u32)
        requires
            old(self).wf(),
            remaining(old(self).views(), image_id@) + delta <= u32::MAX,
        ensures
            final(self).wf(),
            final(self).views() =~= old(self).views().insert(
                image_id@,
                (remaining(old(self).views(), image_id@) + delta) as u32,
            ),
    {
        proof {
            lemma_kv_map_dom(self.entries@, image_id@);
        }
        match self.position_of(image_id) {
            Some(i) => {
                proof {
                    lemma_kv_map_index(self.entries@, i as int);
                }
                let key = self.entries[i].0.clone();
                let cur = self.entries[i].1;
                proof {
                    lemma_kv_map_update(self.entries@, i as int, (cur + delta) as u32);
                }
                self.entries[i] = (key, cur + delta);
                proof {
                    assert(keys_unique(self.entries@));
                }
            },
            None => {
                proof {
                    lemma_kv_map_push(self.entries@, *image_id, delta);
                }
                self.entries.push((image_id.clone(), delta));
                proof {
                    assert(kv_map(self.entries@) == kv_map(
                        old(self).entries@.push((*image_id, delta)),
                    ));
                    assert(keys_unique(self.entries@));
                }
            },
        }
    }

    /// One viewing attempt: consumes a view exactly when one is left.
    pub fn consume_view(&mut self, image_id: &String) -> (r: ViewOutcome)
        requires
            old(self).wf(),
        ensures
            final(self).wf(),
            remaining(old(self).views(), image_id@) > 0 ==> r is Revealed && final(self).views()
                =~= old(self).views().insert(
                image_id@,
                (remaining(old(self).views(), image_id@) - 1) as u32,
            ),
            remaining(old(self).views(), image_id@) == 0 ==> r is NoRights && final(self).views()
                == old(self).views(),
    {
        proof {
            lemma_kv_map_dom(self.entries@, image_id@);
        }
        match self.position_of(image_id) {
            Some(i) => {
                proof {
                    lemma_kv_map_index(self.entries@, i as int);
                }
                let cur = self.entries[i].1;
                if cur > 0 {
                    let key = self.entries[i].0.clone();
                    proof {
                        lemma_kv_map_update(self.entries@, i as int, (cur - 1) as u32);
                    }
                    self.entries[i] = (key, cur - 1);
                    proof {
                        assert(keys_unique(self.entries@));
                    }
                    ViewOutcome::Revealed
                } else {
                    ViewOutcome::NoRights
                }
            },
            None => ViewOutcome::NoRights,
        }
    }

    /// Routes an `increase_approved` / `increase_rejected` reply: an approved
    /// grant merges its views, a rejection changes nothing.
    pub fn handle_increase_views_response(&mut self, image_id: &String, extra_views: u32, approved:
        bool)
        requires
            old(self).wf(),
            approved ==> remaining(old(self).views(), image_id@) + extra_views <= u32::MAX,
        ensures
            final(self).wf(),
            approved ==> final(self).views() =~= old(self).views().insert(
                image_id@,
                (remaining(old(self).views(), image_id@) + extra_views) as u32,
            ),
            !approved ==> final(self).views() == old(self).views(),
    {
        if approved {
            self.add_views(image_id, extra_views);
        }
    }

    /// Stores an already-decoded outer carrier: reads its access-rights row,
    /// merges the views, and hands back the view count with the restored
    /// inner carrier.
    pub fn store_decoded_carrier(&mut self, image_id: &String, outer: &Image) -> (r: Result<
        (u16, Image),
        CarrierError,
    >)
        requires
            old(self).wf(),
            outer.wf(),
            outer.height >= 1 ==> remaining(old(self).views(), image_id@) + stored_views(*outer)
                <= u32::MAX,
        ensures
            final(self).wf(),
            outer.height == 0 ==> r is Err && final(self).views() == old(self).views(),
            outer.height >= 1 ==> (r matches Ok((views, inner)) && views == stored_views(*outer)
                && final(self).views() =~= old(self).views().insert(
                image_id@,
                (remaining(old(self).views(), image_id@) + stored_views(*outer)) as u32,
            ) && inner.wf() && inner.width == outer.width && inner.height == outer.height - 1
                && inner.pixels@ == outer.pixels@.subrange(
                0,
                4 * (outer.width as int) * (outer.height as int - 1),
            )),
    {
        match decode_access_rights(outer) {
            Ok((views, inner)) => {
                self.add_views(image_id, views as u32);
                Ok((views, inner))
            },
            Err(e) => Err(e),
        }
    }

    /// Stores a received carrier from its PNG bytes: decodes the PNG, reads
    /// and merges the access rights, and hands back the inner carrier for
    /// later viewing. The store is untouched on any error.
    pub fn store_received_image(&mut self, image_id: &String, data: &[u8]) -> (r: Result<
        Image,
        StoreError,
    >)
        requires
            old(self).wf(),
        ensures
            final(self).wf(),
            png_decode_of(data@) is None ==> r == Err::<Image, StoreError>(StoreError::NotPng)
                && final(self).views() == old(self).views(),
            (png_decode_of(data@) matches Some(img) && img.height == 0) ==> r == Err::<
                Image,
                StoreError,
            >(StoreError::NoRows) && final(self).views() == old(self).views(),
            (png_decode_of(data@) matches Some(img) && img.height >= 1 && remaining(
                old(self).views(),
                image_id@,
            ) + stored_views(img) > u32::MAX) ==> r == Err::<Image, StoreError>(
                StoreError::TooManyViews,
            ) && final(self).views() == old(self).views(),
            (png_decode_of(data@) matches Some(img) && img.height >= 1 && remaining(
                old(self).views(),
                image_id@,
            ) + stored_views(img) <= u32::MAX) ==> (r matches Ok(inner) && (png_decode_of(data@)
                matches Some(img) && inner.wf() && inner.width == img.width && inner.height
                == img.height - 1 && inner.pixels@ == img.pixels@.subrange(
                0,
                4 * (img.width as int) * (img.height as int - 1),
            ) && final(self).views() =~= old(self).views().insert(
                image_id@,
                (remaining(old(self).views(), image_id@) + stored_views(img)) as u32,
            ))),
    {
        let img = match png_decode(data) {
            Some(img) => img,
            None => {
                return Err(StoreError::NotPng);
            },
        };
        if img.height == 0 {
            return Err(StoreError::NoRows);
        }
        let cur: u64 = match self.get_views(image_id) {
            Some(v) => v as u64,
            None => 0,
        };
        let (views, inner) = match decode_access_rights(&img) {
            Ok(p) => p,
            Err(_) => {
                return Err(StoreError::NoRows);
            },
        };
        if cur + views as u64 > u32::MAX as u64 {
            return Err(StoreError::TooManyViews);
        }
        self.add_views(image_id, views as u32);
        Ok(inner)
    }

    /// Stores a received carrier from the base64 text the grant payload
    /// carries: decodes the text, then stores the PNG bytes as
    /// `store_received_image` does. The store is untouched on any error.
    pub fn store_received_payload(&mut self, image_id: &String, data_b64: &str) -> (r: Result<
        Image,
        StoreError,
    >)
        requires
            old(self).wf(),
        ensures
            final(self).wf(),
            b64_decode_of(data_b64@) is None ==> r == Err::<Image, StoreError>(StoreError::NotBase64)
                && final(self).views() == old(self).views(),
            (b64_decode_of(data_b64@) matches Some(bytes) && png_decode_of(bytes) is None) ==> r
                == Err::<Image, StoreError>(StoreError::NotPng) && final(self).views() == old(
                self,
            ).views(),
            (b64_decode_of(data_b64@) matches Some(bytes) && (png_decode_of(bytes) matches Some(img)
                && img.height == 0)) ==> r == Err::<Image, StoreError>(StoreError::NoRows) && final(self).views() == old(self).views(),
            (b64_decode_of(data_b64@) matches Some(bytes) && (png_decode_of(bytes) matches Some(img)
                && img.height >= 1 && remaining(old(self).views(), image_id@) + stored_views(img)
                > u32::MAX)) ==> r == Err::<Image, StoreError>(StoreError::TooManyViews) && final(self).views() == old(self).views(),
            (b64_decode_of(data_b64@) matches Some(bytes) && (png_decode_of(bytes) matches Some(img)
                && img.height >= 1 && remaining(old(self).views(), image_id@) + stored_views(img)
                <= u32::MAX)) ==> (r matches Ok(inner) && (b64_decode_of(data_b64@) matches Some(
                bytes,
            ) && (png_decode_of(bytes) matches Some(img) && inner.wf() && inner.width == img.width
                && inner.height == img.height - 1 && inner.pixels@ == img.pixels@.subrange(
                0,
                4 * (img.width as int) * (img.height as int - 1),
            ) && final(self).views() =~= old(self).views().insert(
                image_id@,
                (remaining(old(self).views(), image_id@) + stored_views(img)) as u32,
            )))),
    {
        let bytes = match b64_decode(data_b64) {
            Some(v) => v,
            None => {
                return Err(StoreError::NotBase64);
            },
        };
        self.store_received_image(image_id, bytes.as_slice())
    }
}

} // verus!
