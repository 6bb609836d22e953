use vstd::prelude::*;

verus! {

/// Vulkan's raw formats that decide an image's aspect.
pub const FORMAT_UNDEFINED: i32 = 0;
pub const FORMAT_D16_UNORM: i32 = 124;
pub const FORMAT_X8_D24_UNORM_PACK32: i32 = 125;
pub const FORMAT_D32_SFLOAT: i32 = 126;
pub const FORMAT_S8_UINT: i32 = 127;
pub const FORMAT_D16_UNORM_S8_UINT: i32 = 128;
pub const FORMAT_D24_UNORM_S8_UINT: i32 = 129;
pub const FORMAT_D32_SFLOAT_S8_UINT: i32 = 130;

/// Vulkan's raw image aspect bits.
pub const ASPECT_COLOR: u32 = 0x1;
pub const ASPECT_DEPTH: u32 = 0x2;
pub const ASPECT_STENCIL: u32 = 0x4;

/// Vulkan's raw 2D image type and view types.
pub const IMAGE_TYPE_2D: i32 = 1;
pub const VIEW_TYPE_2D: i32 = 1;
pub const VIEW_TYPE_2D_ARRAY: i32 = 5;

/// Where the memory of a resource lives.
#[derive(Debug, Clone, Copy, PartialEq, Eq, Hash, Structural)]
pub enum MemoryLocation {
    Unknown,
    GpuOnly,
    CpuToGpu,
    GpuToCpu,
}

#[derive(Debug, Clone, Copy, Default, PartialEq, Eq, Hash, Structural)]
pub struct Extent2D {
    pub width: u32,
    pub height: u32,
}

#[derive(Debug, Clone, Copy, Default, PartialEq, Eq, Hash, Structural)]
pub struct Extent3D {
    pub width: u32,
    pub height: u32,
    pub depth: u32,
}

#[derive(Debug, Clone, Copy, Default, PartialEq, Eq, Hash, Structural)]
pub struct Offset3D {
    pub x: i32,
    pub y: i32,
    pub z: i32,
}

/// The aspect of an image of this format that views and barriers name.
pub open spec fn aspect_of(format: i32) -> u32 {
    if format == FORMAT_D16_UNORM || format == FORMAT_X8_D24_UNORM_PACK32 || format == FORMAT_D32_SFLOAT {
        ASPECT_DEPTH
    } else if format == FORMAT_S8_UINT {
        ASPECT_STENCIL
    } else if format == FORMAT_D16_UNORM_S8_UINT || format == FORMAT_D24_UNORM_S8_UINT || format
        == FORMAT_D32_SFLOAT_S8_UINT {
        ASPECT_DEPTH | ASPECT_STENCIL
    } else {
        ASPECT_COLOR
    }
}

/// Depth formats are depth, the stencil format is stencil, the packed ones are both and
/// everything else is color.
pub fn aspect_mask(format: i32) -> (r: u32)
    ensures
        r == aspect_of(format),
{
    if format == FORMAT_D16_UNORM || format == FORMAT_X8_D24_UNORM_PACK32 || format == FORMAT_D32_SFLOAT {
        ASPECT_DEPTH
    } else if format == FORMAT_S8_UINT {
        ASPECT_STENCIL
    } else if format == FORMAT_D16_UNORM_S8_UINT || format == FORMAT_D24_UNORM_S8_UINT || format
        == FORMAT_D32_SFLOAT_S8_UINT {
        ASPECT_DEPTH | ASPECT_STENCIL
    } else {
        ASPECT_COLOR
    }
}

/// The mips and layers a view or barrier covers.
#[derive(Debug, Clone, Copy, Default, PartialEq, Eq, Hash, Structural)]
pub struct SubresourceRange {
    pub aspect_mask: u32,
    pub base_mip_level: u32,
    pub level_count: u32,
    pub base_array_layer: u32,
    pub layer_count: u32,
}

/// A buffer: the raw handle of its backing Vulkan buffer, where in that buffer it starts, how
/// many bytes it spans, and the device address of its first byte (zero without one).
#[derive(Debug, Clone, Copy, Default, PartialEq, Eq, Hash, Structural)]
pub struct Buffer {
    pub handle: u64,
    pub offset: u64,
    pub size: u64,
    pub device_address: u64,
    pub host_visible: bool,
    pub allocation_id: u64,
}

impl Buffer {
    pub fn new(handle: u64, size: u64, device_address: u64, host_visible: bool) -> (r: Buffer)
        ensures
            r == (Buffer { handle, offset: 0, size, device_address, host_visible, allocation_id: 0 }),
    {
        Buffer { handle, offset: 0, size, device_address, host_visible, allocation_id: 0 }
    }

    /// No Vulkan buffer stands behind this one yet.
    pub fn is_null(&self) -> (r: bool)
        ensures
            r == (self.handle == 0),
    {
        self.handle == 0
    }

    pub fn size(&self) -> (r: u64)
        ensures
            r == self.size,
    {
        self.size
    }

    /// `size` bytes of this buffer starting `offset` bytes in, or `None` where that runs past
    /// its end or an offset or address would not fit in 64 bits.
    pub fn slice(self, offset: u64, size: u64, allocation_id: u64) -> (r: Option<Buffer>)
        ensures
            r is Some <==> (offset + size <= self.size && self.offset + offset <= u64::MAX && (
            self.device_address == 0 || self.device_address + offset <= u64::MAX)),
            r matches Some(b) ==> b == (Buffer {
                handle: self.handle,
                offset: (self.offset + offset) as u64,
                size,
                device_address: if self.device_address == 0 {
                    0
                } else {
                    (self.device_address + offset) as u64
                },
                host_visible: self.host_visible,
                allocation_id,
            }),
    {
        let end = offset.checked_add(size);
        match end {
            None => { return None; },
            Some(end) => {
                if end > self.size {
                    return None;
                }
            },
        }
        let start = self.offset.checked_add(offset);
        let start = match start {
            None => { return None; },
            Some(start) => start,
        };
        let device_address = if self.device_address == 0 {
            0
        } else {
            match self.device_address.checked_add(offset) {
                None => { return None; },
                Some(address) => address,
            }
        };
        Some(Buffer {
            handle: self.handle,
            offset: start,
            size,
            device_address,
            host_visible: self.host_visible,
            allocation_id,
        })
    }

    /// Where `relative` bytes into this buffer sit in its backing buffer, refused past its end.
    pub fn checked_offset(&self, relative: u64) -> (r: Option<u64>)
        ensures
            r is Some <==> (relative <= self.size && self.offset + relative <= u64::MAX),
            r matches Some(o) ==> o == self.offset + relative,
    {
        if relative > self.size {
            return None;
        }
        self.offset.checked_add(relative)
    }
}

/// An image: the raw handle of its Vulkan image and what it was created with.
#[derive(Debug, Clone, Copy, Default, PartialEq, Eq, Hash, Structural)]
pub struct Image {
    pub handle: u64,
    pub extent: Extent3D,
    pub format: i32,
    pub samples: u32,
    pub mip_levels: u32,
    pub array_layers: u32,
    pub usage: u32,
}

impl Image {
    /// An image the caller owns: one mip, one layer, no usage the graph knows of.
    pub fn imported(handle: u64, format: i32, extent: Extent3D, samples: u32) -> (r: Image)
        ensures
            r == (Image { handle, extent, format, samples, mip_levels: 1, array_layers: 1, usage: 0 }),
    {
        Image { handle, extent, format, samples, mip_levels: 1, array_layers: 1, usage: 0 }
    }

    pub fn is_null(&self) -> (r: bool)
        ensures
            r == (self.handle == 0),
    {
        self.handle == 0
    }

    /// Every mip and layer of the image, in the aspect its format has.
    pub fn subresource_range(&self) -> (r: SubresourceRange)
        ensures
            r == (SubresourceRange {
                aspect_mask: aspect_of(self.format),
                base_mip_level: 0,
                level_count: self.mip_levels,
                base_array_layer: 0,
                layer_count: self.array_layers,
            }),
    {
        SubresourceRange {
            aspect_mask: aspect_mask(self.format),
            base_mip_level: 0,
            level_count: self.mip_levels,
            base_array_layer: 0,
            layer_count: self.array_layers,
        }
    }
}

/// An image as a graph reaches it: a view of some of it, and the layout it rests in.
#[derive(Debug, Clone, Copy, Default, PartialEq, Eq, Hash, Structural)]
pub struct ImageAttachment {
    pub image: Image,
    pub image_view: u64,
    pub format: i32,
    pub extent: Extent3D,
    pub samples: u32,
    pub layout: i32,
    pub subresource_range: SubresourceRange,
}

impl ImageAttachment {
    /// An attachment with no view and an empty subresource range.
    pub fn new(image: Image, format: i32, extent: Extent3D, samples: u32, layout: i32) -> (r: ImageAttachment)
        ensures
            r == (ImageAttachment {
                image,
                image_view: 0,
                format,
                extent,
                samples,
                layout,
                subresource_range: SubresourceRange {
                    aspect_mask: 0,
                    base_mip_level: 0,
                    level_count: 0,
                    base_array_layer: 0,
                    layer_count: 0,
                },
            }),
    {
        ImageAttachment {
            image,
            image_view: 0,
            format,
            extent,
            samples,
            layout,
            subresource_range: SubresourceRange {
                aspect_mask: 0,
                base_mip_level: 0,
                level_count: 0,
                base_array_layer: 0,
                layer_count: 0,
            },
        }
    }

    /// The whole of an image, resting in `layout`.
    pub fn from_image(image: &Image, layout: i32) -> (r: ImageAttachment)
        ensures
            r.image == *image,
            r.image_view == 0,
            r.format == image.format,
            r.extent == image.extent,
            r.samples == image.samples,
            r.layout == layout,
            r.subresource_range == (SubresourceRange {
                aspect_mask: aspect_of(image.format),
                base_mip_level: 0,
                level_count: image.mip_levels,
                base_array_layer: 0,
                layer_count: image.array_layers,
            }),
    {
        ImageAttachment {
            image: *image,
            image_view: 0,
            format: image.format,
            extent: image.extent,
            samples: image.samples,
            layout,
            subresource_range: image.subresource_range(),
        }
    }

    pub fn with_layout(self, layout: i32) -> (r: ImageAttachment)
        ensures
            r == (ImageAttachment { layout, ..self }),
    {
        ImageAttachment { layout, ..self }
    }

    pub fn with_image_view(self, image_view: u64) -> (r: ImageAttachment)
        ensures
            r == (ImageAttachment { image_view, ..self }),
    {
        ImageAttachment { image_view, ..self }
    }

    pub fn with_subresource_range(self, subresource_range: SubresourceRange) -> (r: ImageAttachment)
        ensures
            r == (ImageAttachment { subresource_range, ..self }),
    {
        ImageAttachment { subresource_range, ..self }
    }
}

/// A region of an image a buffer is copied into.
#[derive(Debug, Clone, Copy, PartialEq, Eq, Hash, Structural)]
pub struct BufferImageCopy {
    pub buffer_offset: u64,
    pub image_offset: Offset3D,
    pub image_extent: Extent3D,
    pub mip_level: u32,
}

impl BufferImageCopy {
    /// All of mip 0 of an image this big.
    pub fn whole(extent: Extent3D) -> (r: BufferImageCopy)
        ensures
            r == (BufferImageCopy {
                buffer_offset: 0,
                image_offset: Offset3D { x: 0, y: 0, z: 0 },
                image_extent: extent,
                mip_level: 0,
            }),
    {
        BufferImageCopy {
            buffer_offset: 0,
            image_offset: Offset3D { x: 0, y: 0, z: 0 },
            image_extent: extent,
            mip_level: 0,
        }
    }

    /// A one-deep rectangle of mip 0.
    pub fn region(x: i32, y: i32, extent: Extent2D) -> (r: BufferImageCopy)
        ensures
            r == (BufferImageCopy {
                buffer_offset: 0,
                image_offset: Offset3D { x, y, z: 0 },
                image_extent: Extent3D { width: extent.width, height: extent.height, depth: 1 },
                mip_level: 0,
            }),
    {
        BufferImageCopy {
            buffer_offset: 0,
            image_offset: Offset3D { x, y, z: 0 },
            image_extent: Extent3D { width: extent.width, height: extent.height, depth: 1 },
            mip_level: 0,
        }
    }

    pub fn with_buffer_offset(self, buffer_offset: u64) -> (r: BufferImageCopy)
        ensures
            r == (BufferImageCopy { buffer_offset, ..self }),
    {
        BufferImageCopy { buffer_offset, ..self }
    }

    pub fn with_mip_level(self, mip_level: u32) -> (r: BufferImageCopy)
        ensures
            r == (BufferImageCopy { mip_level, ..self }),
    {
        BufferImageCopy { mip_level, ..self }
    }

    /// A region with no width, height or depth copies nothing.
    pub fn is_empty(&self) -> (r: bool)
        ensures
            r == (self.image_extent.width == 0 || self.image_extent.height == 0
                || self.image_extent.depth == 0),
    {
        self.image_extent.width == 0 || self.image_extent.height == 0 || self.image_extent.depth == 0
    }
}

/// Vulkan's raw usage bits the image and buffer presets are made of.
pub const IMAGE_USAGE_FOR_COLOR_TARGET: u32 = 0x10;
pub const IMAGE_USAGE_FOR_DEPTH_TARGET: u32 = 0x20;
pub const IMAGE_USAGE_FOR_TEXTURE: u32 = 0x6;
pub const BUFFER_USAGE_FOR_VERTEX: u32 = 0x80;
pub const BUFFER_USAGE_FOR_STAGING: u32 = 0x1;

/// What an allocator needs to hand back an image.
#[derive(Debug, Clone)]
pub struct ImageInfo {
    pub extent: Extent3D,
    pub format: i32,
    pub usage: u32,
    pub image_type: i32,
    pub mip_levels: u32,
    pub array_layers: u32,
    pub samples: u32,
    pub location: MemoryLocation,
    pub name: String,
}

impl ImageInfo {
    /// An empty 2D image of no format, one mip, one layer, one sample, in
    /// device memory.
    pub fn new() -> (r: ImageInfo)
        ensures
            r.extent == (Extent3D { width: 0, height: 0, depth: 1 }),
            r.format == FORMAT_UNDEFINED,
            r.usage == 0,
            r.image_type == IMAGE_TYPE_2D,
            r.mip_levels == 1,
            r.array_layers == 1,
            r.samples == 1,
            r.location == MemoryLocation::GpuOnly,
            r.name@.len() == 0,
    {
        ImageInfo {
            extent: Extent3D { width: 0, height: 0, depth: 1 },
            format: FORMAT_UNDEFINED,
            usage: 0,
            image_type: IMAGE_TYPE_2D,
            mip_levels: 1,
            array_layers: 1,
            samples: 1,
            location: MemoryLocation::GpuOnly,
            name: String::new(),
        }
    }

    fn preset(extent: Extent2D, format: i32, usage: u32) -> (r: ImageInfo)
        ensures
            r.extent == (Extent3D { width: extent.width, height: extent.height, depth: 1 }),
            r.format == format,
            r.usage == usage,
            r.image_type == IMAGE_TYPE_2D,
            r.mip_levels == 1,
            r.array_layers == 1,
            r.samples == 1,
            r.location == MemoryLocation::GpuOnly,
            r.name@.len() == 0,
    {
        let mut info = ImageInfo::new();
        info.extent = Extent3D { width: extent.width, height: extent.height, depth: 1 };
        info.format = format;
        info.usage = usage;
        info
    }

    /// An image to render color into.
    pub fn color_target(extent: Extent2D, format: i32) -> (r: ImageInfo)
        ensures
            r.extent == (Extent3D { width: extent.width, height: extent.height, depth: 1 }),
            r.format == format,
            r.usage == IMAGE_USAGE_FOR_COLOR_TARGET,
            r.mip_levels == 1,
            r.array_layers == 1,
            r.samples == 1,
            r.name@.len() == 0,
    {
        ImageInfo::preset(extent, format, IMAGE_USAGE_FOR_COLOR_TARGET)
    }

    /// An image to render depth into.
    pub fn depth_target(extent: Extent2D, format: i32) -> (r: ImageInfo)
        ensures
            r.extent == (Extent3D { width: extent.width, height: extent.height, depth: 1 }),
            r.format == format,
            r.usage == IMAGE_USAGE_FOR_DEPTH_TARGET,
            r.mip_levels == 1,
            r.array_layers == 1,
            r.samples == 1,
            r.name@.len() == 0,
    {
        ImageInfo::preset(extent, format, IMAGE_USAGE_FOR_DEPTH_TARGET)
    }

    /// An image to sample from, filled by a copy.
    pub fn texture(extent: Extent2D, format: i32) -> (r: ImageInfo)
        ensures
            r.extent == (Extent3D { width: extent.width, height: extent.height, depth: 1 }),
            r.format == format,
            r.usage == IMAGE_USAGE_FOR_TEXTURE,
            r.mip_levels == 1,
            r.array_layers == 1,
            r.samples == 1,
            r.name@.len() == 0,
    {
        ImageInfo::preset(extent, format, IMAGE_USAGE_FOR_TEXTURE)
    }

    /// Adds `usage` to what the image is created for.
    pub fn with_usage(self, usage: u32) -> (r: ImageInfo)
        ensures
            r.usage == self.usage | usage,
            r.extent == self.extent && r.format == self.format && r.mip_levels == self.mip_levels
                && r.array_layers == self.array_layers && r.samples == self.samples && r.name@ == self.name@,
    {
        let mut info = self;
        info.usage = info.usage | usage;
        info
    }

    pub fn with_mips(self, mip_levels: u32) -> (r: ImageInfo)
        ensures
            r.mip_levels == mip_levels,
            r.extent == self.extent && r.format == self.format && r.usage == self.usage
                && r.array_layers == self.array_layers && r.samples == self.samples && r.name@ == self.name@,
    {
        let mut info = self;
        info.mip_levels = mip_levels;
        info
    }

    pub fn with_layers(self, array_layers: u32) -> (r: ImageInfo)
        ensures
            r.array_layers == array_layers,
            r.extent == self.extent && r.format == self.format && r.usage == self.usage
                && r.mip_levels == self.mip_levels && r.samples == self.samples && r.name@ == self.name@,
    {
        let mut info = self;
        info.array_layers = array_layers;
        info
    }

    pub fn with_samples(self, samples: u32) -> (r: ImageInfo)
        ensures
            r.samples == samples,
            r.extent == self.extent && r.format == self.format && r.usage == self.usage
                && r.mip_levels == self.mip_levels && r.array_layers == self.array_layers && r.name@ == self.name@,
    {
        let mut info = self;
        info.samples = samples;
        info
    }

    pub fn with_name(self, name: &str) -> (r: ImageInfo)
        ensures
            r.name@ == name@,
            r.extent == self.extent && r.format == self.format && r.usage == self.usage
                && r.mip_levels == self.mip_levels && r.array_layers == self.array_layers && r.samples == self.samples,
    {
        let mut info = self;
        info.name = name.to_owned();
        info
    }

    /// Every mip and layer the image will have, in its format's aspect.
    pub fn subresource_range(&self) -> (r: SubresourceRange)
        ensures
            r == (SubresourceRange {
                aspect_mask: aspect_of(self.format),
                base_mip_level: 0,
                level_count: self.mip_levels,
                base_array_layer: 0,
                layer_count: self.array_layers,
            }),
    {
        SubresourceRange {
            aspect_mask: aspect_mask(self.format),
            base_mip_level: 0,
            level_count: self.mip_levels,
            base_array_layer: 0,
            layer_count: self.array_layers,
        }
    }
}

/// What an allocator needs to hand back a buffer.
#[derive(Debug, Clone)]
pub struct BufferInfo {
    pub size: u64,
    pub usage: u32,
    pub location: MemoryLocation,
    pub alignment: u64,
    pub name: String,
}

impl BufferInfo {
    /// A buffer of `size` bytes with no alignment beyond a byte and no name.
    pub fn new(size: u64, usage: u32, location: MemoryLocation) -> (r: BufferInfo)
        ensures
            r.size == size,
            r.usage == usage,
            r.location == location,
            r.alignment == 1,
            r.name@.len() == 0,
    {
        BufferInfo { size, usage, location, alignment: 1, name: String::new() }
    }

    /// A host-written vertex buffer.
    pub fn vertex(size: u64) -> (r: BufferInfo)
        ensures
            r.size == size,
            r.usage == BUFFER_USAGE_FOR_VERTEX,
            r.location == MemoryLocation::CpuToGpu,
            r.alignment == 1,
            r.name@.len() == 0,
    {
        BufferInfo::new(size, BUFFER_USAGE_FOR_VERTEX, MemoryLocation::CpuToGpu)
    }

    /// A host-visible buffer to stage a copy into device-local memory out of.
    pub fn staging(size: u64) -> (r: BufferInfo)
        ensures
            r.size == size,
            r.usage == BUFFER_USAGE_FOR_STAGING,
            r.location == MemoryLocation::CpuToGpu,
            r.alignment == 1,
            r.name@.len() == 0,
    {
        BufferInfo::new(size, BUFFER_USAGE_FOR_STAGING, MemoryLocation::CpuToGpu)
    }

    /// Adds `usage` to what the buffer is created for.
    pub fn with_usage(self, usage: u32) -> (r: BufferInfo)
        ensures
            r.usage == self.usage | usage,
            r.size == self.size && r.location == self.location && r.alignment == self.alignment
                && r.name@ == self.name@,
    {
        let mut info = self;
        info.usage = info.usage | usage;
        info
    }

    pub fn with_size(self, size: u64) -> (r: BufferInfo)
        ensures
            r.size == size,
            r.usage == self.usage && r.location == self.location && r.alignment == self.alignment
                && r.name@ == self.name@,
    {
        let mut info = self;
        info.size = size;
        info
    }

    pub fn with_alignment(self, alignment: u64) -> (r: BufferInfo)
        ensures
            r.alignment == alignment,
            r.usage == self.usage && r.location == self.location && r.size == self.size
                && r.name@ == self.name@,
    {
        let mut info = self;
        info.alignment = alignment;
        info
    }

    pub fn with_name(self, name: &str) -> (r: BufferInfo)
        ensures
            r.name@ == name@,
            r.usage == self.usage && r.location == self.location && r.size == self.size
                && r.alignment == self.alignment,
    {
        let mut info = self;
        info.name = name.to_owned();
        info
    }
}

} // verus!
