//! What a cached layout is found and judged by.
use vstd::prelude::*;
use crate::view_state::ViewState;

verus! {

/// Version of the renderer that cached layouts are made with.
pub const DISPLAY_RENDERER_VERSION: u64 = 12;

/// What a compiled layout was made from.
#[derive(Clone, Copy, Debug, PartialEq, Eq)]
pub struct DisplayCacheKey {
    pub content_hash: u64,
    pub sidecar_hash: u64,
    pub renderer_version: u64,
    pub renderer_generation: u64,
    pub renderer_cache_key: Option<u64>,
    pub render_context_hash: u64,
}

/// What a block was laid out for.
#[derive(Clone, Copy, Debug, PartialEq, Eq, Structural)]
pub struct LayoutKey {
    pub view_state: ViewState,
    pub width: u16,
    pub show_thinking: bool,
    pub content_hash: u64,
    pub sidecar_hash: u64,
}

fn same_option(a: Option<u64>, b: Option<u64>) -> (r: bool)
    ensures
        r == (a == b),
{
    match (a, b) {
        (Some(a), Some(b)) => a == b,
        (None, None) => true,
        _ => false,
    }
}

impl DisplayCacheKey {
    /// The key of a layout made by this version of the renderer.
    pub fn new(
        content_hash: u64,
        sidecar_hash: u64,
        renderer_generation: u64,
        renderer_cache_key: Option<u64>,
        render_context_hash: u64,
    ) -> (key: Self)
        ensures
            key == (DisplayCacheKey {
                content_hash,
                sidecar_hash,
                renderer_version: DISPLAY_RENDERER_VERSION,
                renderer_generation,
                renderer_cache_key,
                render_context_hash,
            }),
    {
        DisplayCacheKey {
            content_hash,
            sidecar_hash,
            renderer_version: DISPLAY_RENDERER_VERSION,
            renderer_generation,
            renderer_cache_key,
            render_context_hash,
        }
    }

    /// The same but for the content.
    pub open spec fn differs_in_content_at_most(self, other: Self) -> bool {
        self == (DisplayCacheKey { content_hash: self.content_hash, ..other })
    }

    /// Whether two keys are the same but for the content.
    pub fn same_render_inputs_except_content(self, other: Self) -> (r: bool)
        ensures
            r == self.differs_in_content_at_most(other),
    {
        self.sidecar_hash == other.sidecar_hash && self.renderer_version == other.renderer_version
            && self.renderer_generation == other.renderer_generation && same_option(
            self.renderer_cache_key,
            other.renderer_cache_key,
        ) && self.render_context_hash == other.render_context_hash
    }

    /// Whether two keys are the same.
    pub fn same(self, other: Self) -> (r: bool)
        ensures
            r == (self == other),
    {
        self.content_hash == other.content_hash && self.same_render_inputs_except_content(other)
    }
}

/// `hash` with its bits turned left by 17.
pub open spec fn turned(hash: u64) -> u64 {
    (hash << 17) | (hash >> 47)
}

/// A cache key with one more hash mixed in.
pub open spec fn mixed(key: Option<u64>, hash: Option<u64>) -> Option<u64> {
    match (key, hash) {
        (Some(base), Some(hash)) => Some(base ^ turned(hash)),
        (None, hash) => hash,
        (key, None) => key,
    }
}

/// The key that tells renderers apart: that of the renderer itself, with those of the
/// file icons, where they are shown, and of the settings mixed in.
pub fn transcript_renderer_cache_key(
    renderer: Option<u64>,
    icons: Option<u64>,
    settings: Option<u64>,
) -> (key: Option<u64>)
    ensures
        key == mixed(mixed(renderer, icons), settings),
{
    mix(mix(renderer, icons), settings)
}

fn mix(key: Option<u64>, hash: Option<u64>) -> (r: Option<u64>)
    ensures
        r == mixed(key, hash),
{
    match (key, hash) {
        (Some(base), Some(hash)) => Some(base ^ ((hash << 17) | (hash >> 47))),
        (None, hash) => hash,
        (key, None) => key,
    }
}

} // verus!
