use vstd::prelude::*;

verus! {

/// Upper bound on the uncompressed size of a single frame block.
#[derive(Clone, Copy, Debug)]
pub enum BlockSizeClass {
    /// Resolved to an implementation-chosen default before encoding.
    Auto,
    Max64KB,
    Max256KB,
    Max1MB,
    Max4MB,
    Max8MB,
}

/// Whether a block's back-references may reach into the previous blocks.
#[derive(Clone, Copy, Debug)]
pub enum BlockMode {
    Independent,
    Linked,
}

/// The knobs of one frame encoding, fixed for the whole frame.
#[derive(Clone, Copy, Debug)]
pub struct FrameConfig {
    /// Declared total uncompressed size, or `None` to leave it unstated.
    pub content_size: Option<u64>,
    pub block_size_class: BlockSizeClass,
    pub block_mode: BlockMode,
    pub block_checksums: bool,
    pub content_checksum: bool,
    /// Use the legacy frame format: legacy magic, implicit 8 MiB blocks, no
    /// optional header fields and no checksums.
    pub legacy_frame: bool,
}

/// The numeric code a block size class is written as in the block descriptor
/// byte, with `Auto` resolved to the 4 MiB default.
pub open spec fn class_code(c: BlockSizeClass) -> u8 {
    match c {
        BlockSizeClass::Auto => 7,
        BlockSizeClass::Max64KB => 4,
        BlockSizeClass::Max256KB => 5,
        BlockSizeClass::Max1MB => 6,
        BlockSizeClass::Max4MB => 7,
        BlockSizeClass::Max8MB => 8,
    }
}

/// The byte bound a block size class stands for, with `Auto` resolved to the
/// 4 MiB default.
pub open spec fn class_bound(c: BlockSizeClass) -> int {
    match c {
        BlockSizeClass::Auto => 4194304,
        BlockSizeClass::Max64KB => 65536,
        BlockSizeClass::Max256KB => 262144,
        BlockSizeClass::Max1MB => 1048576,
        BlockSizeClass::Max4MB => 4194304,
        BlockSizeClass::Max8MB => 8388608,
    }
}

/// The block size class a configuration code selects: `4` to `8` pick the
/// fixed bounds, every other value picks `Auto`.
pub open spec fn class_of_code(code: u8) -> BlockSizeClass {
    if code == 4 {
        BlockSizeClass::Max64KB
    } else if code == 5 {
        BlockSizeClass::Max256KB
    } else if code == 6 {
        BlockSizeClass::Max1MB
    } else if code == 7 {
        BlockSizeClass::Max4MB
    } else if code == 8 {
        BlockSizeClass::Max8MB
    } else {
        BlockSizeClass::Auto
    }
}

/// The block bound a frame is encoded and decoded with: the legacy format
/// fixes 8 MiB, the modern format resolves the configured class.
pub open spec fn effective_bound(cfg: FrameConfig) -> int {
    if cfg.legacy_frame {
        8388608
    } else {
        class_bound(cfg.block_size_class)
    }
}

/// Whether blocks of the frame are linked; legacy frames never are.
pub open spec fn effective_linked(cfg: FrameConfig) -> bool {
    !cfg.legacy_frame && (cfg.block_mode is Linked)
}

/// Whether blocks carry checksums; legacy frames never do.
pub open spec fn effective_block_checksums(cfg: FrameConfig) -> bool {
    !cfg.legacy_frame && cfg.block_checksums
}

/// Whether the frame ends in a content checksum; legacy frames never do.
pub open spec fn effective_content_checksum(cfg: FrameConfig) -> bool {
    !cfg.legacy_frame && cfg.content_checksum
}

/// The content size the frame header declares; legacy frames declare none.
pub open spec fn effective_content_size(cfg: FrameConfig) -> Option<u64> {
    if cfg.legacy_frame {
        None
    } else {
        cfg.content_size
    }
}

/// The configuration that parsing a frame's own header yields back.
pub open spec fn canonical_config(cfg: FrameConfig) -> FrameConfig {
    if cfg.legacy_frame {
        legacy_config()
    } else {
        FrameConfig {
            content_size: cfg.content_size,
            block_size_class: class_of_code(class_code(cfg.block_size_class)),
            block_mode: if cfg.block_mode is Linked {
                BlockMode::Linked
            } else {
                BlockMode::Independent
            },
            block_checksums: cfg.block_checksums,
            content_checksum: cfg.content_checksum,
            legacy_frame: false,
        }
    }
}

/// The configuration a legacy magic implies.
pub open spec fn legacy_config() -> FrameConfig {
    FrameConfig {
        content_size: None,
        block_size_class: BlockSizeClass::Max8MB,
        block_mode: BlockMode::Independent,
        block_checksums: false,
        content_checksum: false,
        legacy_frame: true,
    }
}

/// Builds the block size class that a numeric configuration code selects.
pub fn block_size_class_from_code(code: u8) -> (c: BlockSizeClass)
    ensures
        c == class_of_code(code),
{
    if code == 4 {
        BlockSizeClass::Max64KB
    } else if code == 5 {
        BlockSizeClass::Max256KB
    } else if code == 6 {
        BlockSizeClass::Max1MB
    } else if code == 7 {
        BlockSizeClass::Max4MB
    } else if code == 8 {
        BlockSizeClass::Max8MB
    } else {
        BlockSizeClass::Auto
    }
}

pub(crate) fn effective_bound_of(cfg: &FrameConfig) -> (b: usize)
    ensures
        b as int == effective_bound(*cfg),
{
    if cfg.legacy_frame {
        8388608
    } else {
        match cfg.block_size_class {
            BlockSizeClass::Auto => 4194304,
            BlockSizeClass::Max64KB => 65536,
            BlockSizeClass::Max256KB => 262144,
            BlockSizeClass::Max1MB => 1048576,
            BlockSizeClass::Max4MB => 4194304,
            BlockSizeClass::Max8MB => 8388608,
        }
    }
}

pub(crate) fn class_code_of(c: &BlockSizeClass) -> (code: u8)
    ensures
        code == class_code(*c),
{
    match c {
        BlockSizeClass::Auto => 7,
        BlockSizeClass::Max64KB => 4,
        BlockSizeClass::Max256KB => 5,
        BlockSizeClass::Max1MB => 6,
        BlockSizeClass::Max4MB => 7,
        BlockSizeClass::Max8MB => 8,
    }
}

} // verus!
