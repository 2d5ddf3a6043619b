//! The domain records: raw records as parsed from a document's front matter,
//! and the canonical records served by the store.
//!
//! Identifiers are 128-bit values drawn fresh from a version-4 UUID on every
//! normalization, so they are not stable across re-scans.  Text fields are
//! byte strings, carried verbatim from the document.

use vstd::prelude::*;

verus! {

/// Free-form string-to-string metadata, as an ordered list of key/value
/// pairs.  The parser never produces two pairs with the same key.
#[derive(Debug, Clone, PartialEq, Eq)]
pub struct Metadata(pub Vec<(Vec<u8>, Vec<u8>)>);

impl View for Metadata {
    type V = Seq<(Seq<u8>, Seq<u8>)>;

    open spec fn view(&self) -> Seq<(Seq<u8>, Seq<u8>)> {
        self.0@.map_values(|p: (Vec<u8>, Vec<u8>)| (p.0@, p.1@))
    }
}

/// The mathematical value of an optional metadata field.
pub open spec fn metadata_view(m: Option<Metadata>) -> Option<Seq<(Seq<u8>, Seq<u8>)>> {
    match m {
        Some(md) => Some(md@),
        None => None,
    }
}

/// A cooking recipe that an event may point at by id.  The reference is not
/// checked: the recipe may not exist in the store.
#[derive(Debug, Clone, PartialEq, Eq)]
pub struct Recipe {
    pub id: u128,
    pub metadata: Option<Metadata>,
}

/// A cover image as written in a document's front matter; transient, it
/// exists only during parsing.
#[derive(Debug, Clone, PartialEq, Eq)]
pub struct RawImage {
    pub url: Vec<u8>,
    pub alt: Vec<u8>,
    pub metadata: Option<Metadata>,
}

pub ghost struct RawImageView {
    pub url: Seq<u8>,
    pub alt: Seq<u8>,
    pub metadata: Option<Seq<(Seq<u8>, Seq<u8>)>>,
}

impl View for RawImage {
    type V = RawImageView;

    open spec fn view(&self) -> RawImageView {
        RawImageView { url: self.url@, alt: self.alt@, metadata: metadata_view(self.metadata) }
    }
}

/// An event record as decoded from a document: the front-matter fields plus
/// the free-text body that follows the header.  Transient, always normalized
/// into an [`Event`] before being exposed.
#[derive(Debug, Clone, PartialEq, Eq)]
pub struct RawEvent {
    pub cover_image: Option<RawImage>,
    pub name: Vec<u8>,
    pub description: Option<Vec<u8>>,
    pub time: crate::date::Date,
    pub recipe_id: Option<u128>,
    pub metadata: Option<Metadata>,
    pub content: Vec<u8>,
}

pub ghost struct RawEventView {
    pub cover_image: Option<RawImageView>,
    pub name: Seq<u8>,
    pub description: Option<Seq<u8>>,
    pub time: crate::date::Date,
    pub recipe_id: Option<u128>,
    pub metadata: Option<Seq<(Seq<u8>, Seq<u8>)>>,
    pub content: Seq<u8>,
}

pub open spec fn raw_image_view(i: Option<RawImage>) -> Option<RawImageView> {
    match i {
        Some(img) => Some(img@),
        None => None,
    }
}

pub open spec fn bytes_view(b: Option<Vec<u8>>) -> Option<Seq<u8>> {
    match b {
        Some(v) => Some(v@),
        None => None,
    }
}

impl View for RawEvent {
    type V = RawEventView;

    open spec fn view(&self) -> RawEventView {
        RawEventView {
            cover_image: raw_image_view(self.cover_image),
            name: self.name@,
            description: bytes_view(self.description),
            time: self.time,
            recipe_id: self.recipe_id,
            metadata: metadata_view(self.metadata),
            content: self.content@,
        }
    }
}

/// An image owned by the event that embeds it.
#[derive(Debug, Clone, PartialEq, Eq)]
pub struct Image {
    pub id: u128,
    pub url: Vec<u8>,
    pub alt: Vec<u8>,
    pub metadata: Option<Metadata>,
}

pub ghost struct ImageView {
    pub id: u128,
    pub url: Seq<u8>,
    pub alt: Seq<u8>,
    pub metadata: Option<Seq<(Seq<u8>, Seq<u8>)>>,
}

impl View for Image {
    type V = ImageView;

    open spec fn view(&self) -> ImageView {
        ImageView {
            id: self.id,
            url: self.url@,
            alt: self.alt@,
            metadata: metadata_view(self.metadata),
        }
    }
}

pub open spec fn image_view(i: Option<Image>) -> Option<ImageView> {
    match i {
        Some(img) => Some(img@),
        None => None,
    }
}

/// A canonical event record: one entry of the calendar.
#[derive(Debug, Clone, PartialEq, Eq)]
pub struct Event {
    pub id: u128,
    pub cover_image: Option<Image>,
    pub name: Vec<u8>,
    pub description: Option<Vec<u8>>,
    pub time: crate::date::Date,
    pub recipe_id: Option<u128>,
    pub images: Vec<Image>,
    pub metadata: Option<Metadata>,
}

pub ghost struct EventView {
    pub id: u128,
    pub cover_image: Option<ImageView>,
    pub name: Seq<u8>,
    pub description: Option<Seq<u8>>,
    pub time: crate::date::Date,
    pub recipe_id: Option<u128>,
    pub images: Seq<ImageView>,
    pub metadata: Option<Seq<(Seq<u8>, Seq<u8>)>>,
}

impl View for Event {
    type V = EventView;

    open spec fn view(&self) -> EventView {
        EventView {
            id: self.id,
            cover_image: image_view(self.cover_image),
            name: self.name@,
            description: bytes_view(self.description),
            time: self.time,
            recipe_id: self.recipe_id,
            images: self.images@.map_values(|i: Image| i@),
            metadata: metadata_view(self.metadata),
        }
    }
}

/// The reduced view of an event used for list displays.
#[derive(Debug, Clone, PartialEq, Eq)]
pub struct EventOverview {
    pub id: u128,
    pub cover_image: Option<Image>,
    pub name: Vec<u8>,
    pub description: Option<Vec<u8>>,
    pub time: crate::date::Date,
}

pub ghost struct EventOverviewView {
    pub id: u128,
    pub cover_image: Option<ImageView>,
    pub name: Seq<u8>,
    pub description: Option<Seq<u8>>,
    pub time: crate::date::Date,
}

impl View for EventOverview {
    type V = EventOverviewView;

    open spec fn view(&self) -> EventOverviewView {
        EventOverviewView {
            id: self.id,
            cover_image: image_view(self.cover_image),
            name: self.name@,
            description: bytes_view(self.description),
            time: self.time,
        }
    }
}

/// The overview projection of an event: the identity fields copied, the rest
/// dropped.
pub open spec fn overview_of(e: EventView) -> EventOverviewView {
    EventOverviewView {
        id: e.id,
        cover_image: e.cover_image,
        name: e.name,
        description: e.description,
        time: e.time,
    }
}

impl From<Event> for EventOverview {
    fn from(value: Event) -> (r: EventOverview) {
        EventOverview {
            id: value.id,
            cover_image: value.cover_image,
            name: value.name,
            description: value.description,
            time: value.time,
        }
    }
}

impl vstd::std_specs::convert::FromSpecImpl<Event> for EventOverview {
    open spec fn obeys_from_spec() -> bool {
        true
    }

    open spec fn from_spec(v: Event) -> EventOverview {
        EventOverview {
            id: v.id,
            cover_image: v.cover_image,
            name: v.name,
            description: v.description,
            time: v.time,
        }
    }
}

/// An image carries the content of the raw image it was normalized from:
/// everything but the freshly drawn id.
pub open spec fn image_matches_raw(img: ImageView, raw: RawImageView) -> bool {
    &&& img.url == raw.url
    &&& img.alt == raw.alt
    &&& img.metadata == raw.metadata
}

/// An event carries the content of the raw record it was normalized from:
/// every field copied, the gallery empty, the body dropped, and only the
/// freshly drawn ids unconstrained.
pub open spec fn event_matches_raw(e: EventView, raw: RawEventView) -> bool {
    &&& match (e.cover_image, raw.cover_image) {
        (None, None) => true,
        (Some(img), Some(ri)) => image_matches_raw(img, ri),
        _ => false,
    }
    &&& e.name == raw.name
    &&& e.description == raw.description
    &&& e.time == raw.time
    &&& e.recipe_id == raw.recipe_id
    &&& e.images == Seq::<ImageView>::empty()
    &&& e.metadata == raw.metadata
}

/// Two events hold the same content where all fields but the generated ids
/// agree.
pub open spec fn event_content_eq(a: EventView, b: EventView) -> bool {
    &&& match (a.cover_image, b.cover_image) {
        (None, None) => true,
        (Some(x), Some(y)) => x.url == y.url && x.alt == y.alt && x.metadata == y.metadata,
        _ => false,
    }
    &&& a.name == b.name
    &&& a.description == b.description
    &&& a.time == b.time
    &&& a.recipe_id == b.recipe_id
    &&& a.images == b.images
    &&& a.metadata == b.metadata
}

use crate::ids::fresh_id;

/// Copies a byte string; the copy holds the same bytes.
pub(crate) fn clone_bytes(v: &Vec<u8>) -> (r: Vec<u8>)
    ensures
        r@ == v@,
{
    let r = v.clone();
    proof {
        assert forall|t: int| 0 <= t < v@.len() implies r@[t] == v@[t] by {
            assert(cloned::<u8>(v@[t], r@[t]));
        }
        assert(r@ =~= v@);
    }
    r
}

pub(crate) fn clone_opt_bytes(v: &Option<Vec<u8>>) -> (r: Option<Vec<u8>>)
    ensures
        bytes_view(r) == bytes_view(*v),
{
    match v {
        Some(b) => Some(clone_bytes(b)),
        None => None,
    }
}

impl Metadata {
    /// Copies the metadata; the copy holds the same pairs.
    pub fn duplicate(&self) -> (r: Metadata)
        ensures
            r@ == self@,
    {
        let n = self.0.len();
        let mut out: Vec<(Vec<u8>, Vec<u8>)> = Vec::new();
        let mut t: usize = 0;
        while t < n
            invariant
                n == self.0@.len(),
                t == out@.len() <= n,
                forall|u: int|
                    0 <= u < t ==> (#[trigger] out@[u]).0@ == self.0@[u].0@ && out@[u].1@
                        == self.0@[u].1@,
            decreases n - t,
        {
            out.push((clone_bytes(&self.0[t].0), clone_bytes(&self.0[t].1)));
            t = t + 1;
        }
        let r = Metadata(out);
        proof {
            assert(r@ =~= self@);
        }
        r
    }
}

pub(crate) fn clone_opt_metadata(m: &Option<Metadata>) -> (r: Option<Metadata>)
    ensures
        metadata_view(r) == metadata_view(*m),
{
    match m {
        Some(md) => Some(md.duplicate()),
        None => None,
    }
}

impl Image {
    /// Copies the image; the copy holds the same fields.
    pub fn duplicate(&self) -> (r: Image)
        ensures
            r@ == self@,
    {
        Image {
            id: self.id,
            url: clone_bytes(&self.url),
            alt: clone_bytes(&self.alt),
            metadata: clone_opt_metadata(&self.metadata),
        }
    }
}

pub(crate) fn clone_opt_image(v: &Option<Image>) -> (r: Option<Image>)
    ensures
        image_view(r) == image_view(*v),
{
    match v {
        Some(img) => Some(img.duplicate()),
        None => None,
    }
}

impl Event {
    /// Copies the event; the copy holds the same fields.
    pub fn duplicate(&self) -> (r: Event)
        ensures
            r@ == self@,
    {
        let n = self.images.len();
        let mut images: Vec<Image> = Vec::new();
        let mut t: usize = 0;
        while t < n
            invariant
                n == self.images@.len(),
                t == images@.len() <= n,
                forall|u: int| 0 <= u < t ==> (#[trigger] images@[u])@ == self.images@[u]@,
            decreases n - t,
        {
            images.push(self.images[t].duplicate());
            t = t + 1;
        }
        let r = Event {
            id: self.id,
            cover_image: clone_opt_image(&self.cover_image),
            name: clone_bytes(&self.name),
            description: clone_opt_bytes(&self.description),
            time: self.time,
            recipe_id: self.recipe_id,
            images,
            metadata: clone_opt_metadata(&self.metadata),
        };
        proof {
            assert(r@.images =~= self@.images);
        }
        r
    }

    /// The overview projection of the event: the display fields copied, the
    /// rest dropped.
    pub fn overview(&self) -> (r: EventOverview)
        ensures
            r@ == overview_of(self@),
    {
        EventOverview {
            id: self.id,
            cover_image: clone_opt_image(&self.cover_image),
            name: clone_bytes(&self.name),
            description: clone_opt_bytes(&self.description),
            time: self.time,
        }
    }
}

impl Image {
    /// Normalizes a raw image under a caller-chosen id.
    pub fn from_raw_with_id(value: RawImage, id: u128) -> (r: Image)
        ensures
            r@ == (ImageView {
                id,
                url: value@.url,
                alt: value@.alt,
                metadata: value@.metadata,
            }),
    {
        Image { id, url: value.url, alt: value.alt, metadata: value.metadata }
    }

    /// Normalizes a raw image, drawing a fresh random id for it.
    pub fn from(value: RawImage) -> (r: Image)
        ensures
            image_matches_raw(r@, value@),
    {
        let id = fresh_id();
        Image::from_raw_with_id(value, id)
    }
}

impl Event {
    /// Normalizes a raw record under caller-chosen ids: copies every field,
    /// leaves the gallery empty and drops the body.
    pub fn from_raw_with_ids(value: RawEvent, id: u128, image_id: u128) -> (r: Event)
        ensures
            r@.id == id,
            r@.cover_image matches Some(img) ==> img.id == image_id,
            event_matches_raw(r@, value@),
    {
        let cover_image = match value.cover_image {
            Some(ci) => Some(Image::from_raw_with_id(ci, image_id)),
            None => None,
        };
        let r = Event {
            id,
            cover_image,
            name: value.name,
            description: value.description,
            time: value.time,
            recipe_id: value.recipe_id,
            images: Vec::new(),
            metadata: value.metadata,
        };
        proof {
            assert(r@.images =~= Seq::<ImageView>::empty());
        }
        r
    }

    /// Normalizes a raw record, drawing fresh random ids for the event and,
    /// if present, its cover image.
    pub fn from(value: RawEvent) -> (r: Event)
        ensures
            event_matches_raw(r@, value@),
    {
        let id = fresh_id();
        let image_id = fresh_id();
        Event::from_raw_with_ids(value, id, image_id)
    }
}

} // verus!
