use vstd::prelude::*;
use vstd::string::*;
use crate::codec::{file_path_of, trim_slashes};
use crate::descriptor::{CachedImage, CachedImageOption, DescriptorModel, Resize};
use crate::placeholder::{is_expired, snapshot_matches, BlurCache, EntryModel};
use crate::scheduler::{outcome_of, after_step, step_of, Admission, CreateImageError, CreateStep, InFlight};

verus! {

/// Joins path segments with `/`, after removing the slashes at both ends of
/// each and leaving out those that are then empty.
pub open spec fn join_segments(parts: Seq<Seq<char>>) -> Seq<char>
    decreases parts.len(),
{
    if parts.len() == 0 {
        seq![]
    } else {
        let prev = join_segments(parts.drop_last());
        let t = trim_slashes(parts.last());
        if t.len() == 0 {
            prev
        } else if prev.len() == 0 {
            t
        } else {
            prev + seq!['/'] + t
        }
    }
}

pub open spec fn views(parts: Seq<String>) -> Seq<Seq<char>> {
    parts.map_values(|s: String| s@)
}

/// Joins path segments, ignoring the slashes at their ends.
pub fn path_from_segments(parts: &Vec<String>) -> (r: String)
    ensures
        r@ == join_segments(views(parts@)),
{
    let mut out = String::new();
    let mut i: usize = 0;
    while i < parts.len()
        invariant
            i <= parts.len(),
            out@ == join_segments(views(parts@.subrange(0, i as int))),
        decreases parts.len() - i,
    {
        let t = crate::codec::trim_str(parts[i].as_str());
        assert(views(parts@.subrange(0, i + 1)).drop_last() =~= views(parts@.subrange(0, i as int)));
        if t.unicode_len() == 0 {
        } else if out.as_str().unicode_len() == 0 {
            out = String::from_str(t);
        } else {
            proof {
                reveal_strlit("/");
            }
            out.append("/");
            out.append(t);
        }
        i = i + 1;
    }
    assert(parts@.subrange(0, parts.len() as int) =~= parts@);
    out
}

/// The request after the upscale policy: with enlargement disallowed and the
/// source's dimensions known, each dimension of a resize is clamped to the
/// source's on its own. Blur requests and the other cases are left as they are.
pub open spec fn clamped(d: DescriptorModel, no_upscale: bool, dims: Option<(u32, u32)>) -> DescriptorModel {
    match d.1 {
        CachedImageOption::Resize(r) => {
            if no_upscale && dims is Some {
                let (w, h) = dims->0;
                (
                    d.0,
                    CachedImageOption::Resize(
                        Resize {
                            width: if r.width <= w {
                                r.width
                            } else {
                                w
                            },
                            height: if r.height <= h {
                                r.height
                            } else {
                                h
                            },
                            quality: r.quality,
                        },
                    ),
                )
            } else {
                d
            }
        },
        CachedImageOption::Blur(_) => d,
    }
}

/// Relies on chrono's `From<SystemTime> for DateTime<Utc>` and
/// `DateTime::timestamp`: the current time in seconds since the Unix epoch,
/// negative for a clock set before it. Nothing is promised of its value.
#[verifier::external_body]
fn now_seconds() -> (r: i64) {
    chrono::DateTime::<chrono::Utc>::from(std::time::SystemTime::now()).timestamp()
}

/// What the rendering side needs: the handler path and the placeholders held
/// in memory.
#[derive(Clone, Debug)]
pub struct ImageConfig {
    pub api_handler_path: String,
    pub cache: Vec<(CachedImage, String)>,
}

/// The cache engine: configuration, placeholder cache, computations in flight
/// and admission control.
pub struct ImageOptimizer {
    /// The route the image handler is mounted at, e.g. `/__cache/image`.
    pub api_handler_path: String,
    /// The file root the cache lives under, e.g. `./public`.
    pub root_file_path: String,
    /// Whether a resize may not enlarge its source.
    pub no_upscale: bool,
    /// Time to live of blur placeholders, in seconds; `None` or `Some(0)`
    /// keeps them.
    pub blur_ttl_seconds: Option<u64>,
    pub blur_cache: BlurCache,
    pub in_flight: InFlight,
    pub admission: Admission,
}

impl ImageOptimizer {
    /// The configuration of `other` is that of `self`.
    pub open spec fn same_config(&self, other: &ImageOptimizer) -> bool {
        &&& other.api_handler_path@ == self.api_handler_path@
        &&& other.root_file_path@ == self.root_file_path@
        &&& other.no_upscale == self.no_upscale
        &&& other.blur_ttl_seconds == self.blur_ttl_seconds
    }

    pub open spec fn wf(&self) -> bool {
        &&& self.blur_cache.wf()
        &&& self.in_flight.wf()
        &&& self.admission.wf()
    }

    pub fn new(
        api_handler_path: String,
        root_file_path: String,
        parallelism: usize,
        no_upscale: bool,
        blur_ttl_seconds: Option<u64>,
    ) -> (r: ImageOptimizer)
        ensures
            r.wf(),
            r.api_handler_path@ == api_handler_path@,
            r.root_file_path@ == root_file_path@,
            r.no_upscale == no_upscale,
            r.blur_ttl_seconds == blur_ttl_seconds,
            r.blur_cache@ == Map::<DescriptorModel, EntryModel>::empty(),
            r.in_flight@ == Set::<DescriptorModel>::empty(),
            r.admission.capacity_spec() == parallelism,
            r.admission.running_spec() == 0,
    {
        ImageOptimizer {
            api_handler_path,
            root_file_path,
            no_upscale,
            blur_ttl_seconds,
            blur_cache: BlurCache::new(),
            in_flight: InFlight::new(),
            admission: Admission::new(parallelism),
        }
    }

    /// The path of a variant, relative to the file root.
    pub fn get_file_path(&self, image: &CachedImage) -> (r: String)
        ensures
            r@ == file_path_of(image@),
    {
        image.get_file_path()
    }

    /// The path of a variant joined to the file root.
    pub fn get_file_path_from_root(&self, image: &CachedImage) -> (r: String)
        ensures
            r@ == join_segments(seq![self.root_file_path@, file_path_of(image@)]),
    {
        let rel = self.get_file_path(image);
        let parts = vec![self.root_file_path.clone(), rel];
        let r = path_from_segments(&parts);
        assert(views(parts@) =~= seq![self.root_file_path@, file_path_of(image@)]);
        r
    }

    /// Applies the upscale policy, given the source's dimensions when they
    /// could be probed.
    pub fn maybe_clamp(&self, image: &CachedImage, source_dims: Option<(u32, u32)>) -> (r: CachedImage)
        ensures
            r@ == clamped(image@, self.no_upscale, source_dims),
    {
        match image.option {
            CachedImageOption::Resize(r) => {
                match source_dims {
                    Some((w, h)) => {
                        if self.no_upscale {
                            let width = if r.width <= w {
                                r.width
                            } else {
                                w
                            };
                            let height = if r.height <= h {
                                r.height
                            } else {
                                h
                            };
                            CachedImage {
                                src: image.src.clone(),
                                option: CachedImageOption::Resize(Resize { width, height, quality: r.quality }),
                            }
                        } else {
                            image.duplicate()
                        }
                    },
                    None => image.duplicate(),
                }
            },
            CachedImageOption::Blur(_) => image.duplicate(),
        }
    }

    /// The blur placeholder held for `image` at time `now`, honouring the time
    /// to live: an expired entry is evicted and nothing is returned.
    pub fn get_blur_at(&mut self, image: &CachedImage, now: i64) -> (r: Option<String>)
        requires
            old(self).wf(),
        ensures
            final(self).wf(),
            old(self).same_config(final(self)),
            final(self).in_flight@ == old(self).in_flight@,
            final(self).admission == old(self).admission,
            !old(self).blur_cache@.contains_key(image@) ==> r is None && final(self).blur_cache@
                == old(self).blur_cache@,
            old(self).blur_cache@.contains_key(image@) && is_expired(
                old(self).blur_cache@[image@].1,
                now,
                old(self).blur_ttl_seconds,
            ) ==> r is None && final(self).blur_cache@ == old(self).blur_cache@.remove(image@),
            old(self).blur_cache@.contains_key(image@) && !is_expired(
                old(self).blur_cache@[image@].1,
                now,
                old(self).blur_ttl_seconds,
            ) ==> (r matches Some(s) && s@ == old(self).blur_cache@[image@].0) && final(self).blur_cache@
                == old(self).blur_cache@,
    {
        let ttl = self.blur_ttl_seconds;
        self.blur_cache.get_at(image, now, ttl)
    }

    /// The blur placeholder held for `image` now.
    pub fn get_blur(&mut self, image: &CachedImage) -> (r: Option<String>)
        requires
            old(self).wf(),
        ensures
            final(self).wf(),
            r matches Some(s) ==> old(self).blur_cache@.contains_key(image@) && s@ == old(
                self,
            ).blur_cache@[image@].0,
            !old(self).blur_cache@.contains_key(image@) ==> r is None,
            old(self).blur_ttl_seconds is None && old(self).blur_cache@.contains_key(image@) ==> (
            r matches Some(s) && s@ == old(self).blur_cache@[image@].0),
            final(self).blur_cache@ == old(self).blur_cache@ || final(self).blur_cache@ == old(
                self,
            ).blur_cache@.remove(image@),
            r is None ==> final(self).blur_cache@ == old(self).blur_cache@.remove(image@),
            r is Some ==> final(self).blur_cache@ == old(self).blur_cache@,
            old(self).same_config(final(self)),
            final(self).in_flight@ == old(self).in_flight@,
            final(self).admission == old(self).admission,
    {
        let now = now_seconds();
        self.get_blur_at(image, now)
    }

    /// Stores the markup of a blur placeholder, created at `now`.
    pub fn put_blur_at(&mut self, image: &CachedImage, svg: String, now: i64)
        requires
            old(self).wf(),
        ensures
            final(self).wf(),
            final(self).blur_cache@ == old(self).blur_cache@.insert(image@, (svg@, now)),
            old(self).same_config(final(self)),
            final(self).in_flight@ == old(self).in_flight@,
            final(self).admission == old(self).admission,
    {
        self.blur_cache.put(image.duplicate(), svg, now);
    }

    /// Stores the markup of a blur placeholder, created now.
    pub fn put_blur(&mut self, image: &CachedImage, svg: String)
        requires
            old(self).wf(),
        ensures
            final(self).wf(),
            exists|t: i64| final(self).blur_cache@ == old(self).blur_cache@.insert(image@, (svg@, t)),
            old(self).same_config(final(self)),
            final(self).in_flight@ == old(self).in_flight@,
            final(self).admission == old(self).admission,
    {
        let now = now_seconds();
        self.put_blur_at(image, svg, now);
    }

    /// A snapshot of the handler path and of every placeholder held.
    pub fn image_config(&self) -> (r: ImageConfig)
        requires
            self.wf(),
        ensures
            r.api_handler_path@ == self.api_handler_path@,
            snapshot_matches(r.cache@, self.blur_cache@),
    {
        ImageConfig {
            api_handler_path: self.api_handler_path.clone(),
            cache: self.blur_cache.snapshot(),
        }
    }

    /// First decision of `create_image` for a request, once the upscale policy
    /// has been applied: nothing to do, join, or produce.
    pub fn begin_create(&mut self, image: &CachedImage, file_exists: bool) -> (r: CreateStep)
        requires
            old(self).wf(),
        ensures
            final(self).wf(),
            r == step_of(old(self).in_flight@, image@, file_exists),
            final(self).in_flight@ == after_step(old(self).in_flight@, image@, file_exists),
            final(self).blur_cache@ == old(self).blur_cache@,
            final(self).admission == old(self).admission,
            old(self).same_config(final(self)),
    {
        self.in_flight.begin(image, file_exists)
    }

    /// The producer of `image` has finished: it leaves the in-flight set and
    /// the outcome for every waiter is returned.
    pub fn finish_create(&mut self, image: &CachedImage, done: Result<(), CreateImageError>) -> (r: Result<bool, CreateImageError>)
        requires
            old(self).wf(),
        ensures
            final(self).wf(),
            final(self).in_flight@ == old(self).in_flight@.remove(image@),
            final(self).blur_cache@ == old(self).blur_cache@,
            final(self).admission == old(self).admission,
            old(self).same_config(final(self)),
            r == outcome_of(done),
    {
        self.in_flight.finish(image, done)
    }
}

} // verus!
