use vstd::prelude::*;

verus! {

/// Resize parameters for a lossy re-encode.
#[derive(Clone, Copy, Debug, PartialEq, Eq, Structural, Hash)]
pub struct Resize {
    pub width: u32,
    pub height: u32,
    pub quality: u8,
}

/// Parameters of a blurred SVG placeholder.
#[derive(Clone, Copy, Debug, PartialEq, Eq, Structural, Hash)]
pub struct Blur {
    pub width: u32,
    pub height: u32,
    pub svg_width: u32,
    pub svg_height: u32,
    pub sigma: u8,
}

/// The transformation requested for a source image.
#[derive(Clone, Copy, Debug, PartialEq, Eq, Structural, Hash)]
pub enum CachedImageOption {
    Resize(Resize),
    Blur(Blur),
}

/// A source path together with the transformation applied to it: the
/// identity of one cached variant.
#[derive(Clone, Debug, Hash)]
pub struct CachedImage {
    pub src: String,
    pub option: CachedImageOption,
}

/// What a descriptor denotes: the characters of its source and its option.
pub type DescriptorModel = (Seq<char>, CachedImageOption);

impl View for CachedImage {
    type V = DescriptorModel;

    open spec fn view(&self) -> DescriptorModel {
        (self.src@, self.option)
    }
}

impl CachedImage {
    pub fn new(src: String, option: CachedImageOption) -> (r: CachedImage)
        ensures
            r@ == (src@, option),
    {
        CachedImage { src, option }
    }

    /// A copy with the same source and option.
    pub fn duplicate(&self) -> (r: CachedImage)
        ensures
            r@ == self@,
    {
        CachedImage { src: self.src.clone(), option: self.option }
    }

    pub fn same_as(&self, other: &CachedImage) -> (r: bool)
        ensures
            r == (self@ == other@),
    {
        self.src == other.src && self.option == other.option
    }
}

impl PartialEq for CachedImage {
    fn eq(&self, other: &CachedImage) -> (r: bool) {
        self.src == other.src && self.option == other.option
    }
}

impl vstd::std_specs::cmp::PartialEqSpecImpl for CachedImage {
    open spec fn obeys_eq_spec() -> bool {
        true
    }

    open spec fn eq_spec(&self, other: &CachedImage) -> bool {
        self@ == other@
    }
}

impl Eq for CachedImage {}

} // verus!
