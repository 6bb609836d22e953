use vstd::prelude::*;

verus! {

/// Vulkan's raw image layouts, the values a layout transition moves between.
pub const LAYOUT_UNDEFINED: i32 = 0;
pub const LAYOUT_GENERAL: i32 = 1;
pub const LAYOUT_COLOR_ATTACHMENT: i32 = 2;
pub const LAYOUT_DEPTH_STENCIL_ATTACHMENT: i32 = 3;
pub const LAYOUT_DEPTH_STENCIL_READ_ONLY: i32 = 4;
pub const LAYOUT_SHADER_READ_ONLY: i32 = 5;
pub const LAYOUT_TRANSFER_SRC: i32 = 6;
pub const LAYOUT_TRANSFER_DST: i32 = 7;
pub const LAYOUT_PRESENT_SRC: i32 = 1000001002;
pub const LAYOUT_READ_ONLY: i32 = 1000314000;

/// Vulkan's raw image usage bits.
pub const IMAGE_USAGE_TRANSFER_SRC: u32 = 0x1;
pub const IMAGE_USAGE_TRANSFER_DST: u32 = 0x2;
pub const IMAGE_USAGE_SAMPLED: u32 = 0x4;
pub const IMAGE_USAGE_STORAGE: u32 = 0x8;
pub const IMAGE_USAGE_COLOR_ATTACHMENT: u32 = 0x10;
pub const IMAGE_USAGE_DEPTH_STENCIL_ATTACHMENT: u32 = 0x20;
pub const IMAGE_USAGE_INPUT_ATTACHMENT: u32 = 0x80;

/// Vulkan's raw buffer usage bits.
pub const BUFFER_USAGE_TRANSFER_SRC: u32 = 0x1;
pub const BUFFER_USAGE_TRANSFER_DST: u32 = 0x2;
pub const BUFFER_USAGE_UNIFORM_BUFFER: u32 = 0x10;
pub const BUFFER_USAGE_STORAGE_BUFFER: u32 = 0x20;
pub const BUFFER_USAGE_INDEX_BUFFER: u32 = 0x40;
pub const BUFFER_USAGE_VERTEX_BUFFER: u32 = 0x80;
pub const BUFFER_USAGE_INDIRECT_BUFFER: u32 = 0x100;
pub const BUFFER_USAGE_SHADER_DEVICE_ADDRESS: u32 = 0x20000;

/// Vulkan's raw shader stage bits.
pub const STAGE_VERTEX: u32 = 0x1;
pub const STAGE_FRAGMENT: u32 = 0x10;
pub const STAGE_COMPUTE: u32 = 0x20;

/// The bits of [`Access`], one per way a command reaches a resource.
pub const ACCESS_CLEAR: u32 = 1 << 0;
pub const ACCESS_BLIT_READ: u32 = 1 << 1;
pub const ACCESS_BLIT_WRITE: u32 = 1 << 2;
pub const ACCESS_COPY_READ: u32 = 1 << 3;
pub const ACCESS_COPY_WRITE: u32 = 1 << 4;
pub const ACCESS_COLOR_READ: u32 = 1 << 5;
pub const ACCESS_COLOR_WRITE: u32 = 1 << 6;
pub const ACCESS_DEPTH_STENCIL_READ: u32 = 1 << 7;
pub const ACCESS_DEPTH_STENCIL_WRITE: u32 = 1 << 8;
pub const ACCESS_VERTEX_SAMPLED: u32 = 1 << 9;
pub const ACCESS_FRAGMENT_SAMPLED: u32 = 1 << 10;
pub const ACCESS_COMPUTE_SAMPLED: u32 = 1 << 11;
pub const ACCESS_FRAGMENT_READ: u32 = 1 << 12;
pub const ACCESS_FRAGMENT_WRITE: u32 = 1 << 13;
pub const ACCESS_COMPUTE_READ: u32 = 1 << 14;
pub const ACCESS_COMPUTE_WRITE: u32 = 1 << 15;
pub const ACCESS_COMPUTE_UNIFORM_READ: u32 = 1 << 16;
pub const ACCESS_ATTRIBUTE_READ: u32 = 1 << 17;
pub const ACCESS_INDEX_READ: u32 = 1 << 18;
pub const ACCESS_INDIRECT_READ: u32 = 1 << 19;
pub const ACCESS_HOST_WRITE: u32 = 1 << 20;
pub const ACCESS_PRESENT: u32 = 1 << 21;
pub const ACCESS_VERTEX_READ: u32 = 1 << 22;
pub const ACCESS_VERTEX_WRITE: u32 = 1 << 23;
pub const ACCESS_VERTEX_UNIFORM_READ: u32 = 1 << 24;
pub const ACCESS_FRAGMENT_UNIFORM_READ: u32 = 1 << 25;
pub const ACCESS_INPUT_ATTACHMENT_READ: u32 = 1 << 26;
pub const ACCESS_VERTEX_ACCELERATION_STRUCTURE_READ: u32 = 1 << 27;
pub const ACCESS_FRAGMENT_ACCELERATION_STRUCTURE_READ: u32 = 1 << 28;
pub const ACCESS_COMPUTE_ACCELERATION_STRUCTURE_READ: u32 = 1 << 29;
/// How many bits [`Access`] has.
pub const ACCESS_BITS: u32 = 30;
/// Every bit of [`Access`].
pub const ACCESS_ALL: u32 = 0x3fff_ffff;

/// Every bit that changes the memory of what it reaches.
pub const ACCESS_WRITES: u32 = 0x00a1_a155;
/// Every bit that reads the memory of what it reaches.
pub const ACCESS_READS: u32 = 0x3f4f_5eaa;

pub const TRANSFER_DST_BITS: u32 = 0x15;
pub const TRANSFER_SRC_BITS: u32 = 0x0a;
pub const COLOR_BITS: u32 = 0x60;
pub const DEPTH_STENCIL_BITS: u32 = 0x180;
pub const SAMPLED_BITS: u32 = 0x0400_0e00;
pub const STORAGE_BITS: u32 = 0x00c0_f000;
pub const UNIFORM_BITS: u32 = 0x0301_0000;

/// How a command reaches a resource: a set of the `ACCESS_*` bits.
#[derive(Clone, Copy, Debug, PartialEq, Eq, Hash, Structural)]
pub struct Access(pub u32);

/// The image layout an access needs its image in.
pub open spec fn layout_of(bits: u32) -> i32 {
    if bits == 0 {
        LAYOUT_UNDEFINED
    } else if bits & !TRANSFER_DST_BITS == 0 {
        LAYOUT_TRANSFER_DST
    } else if bits & !TRANSFER_SRC_BITS == 0 {
        LAYOUT_TRANSFER_SRC
    } else if bits & !COLOR_BITS == 0 {
        LAYOUT_COLOR_ATTACHMENT
    } else if bits & !DEPTH_STENCIL_BITS == 0 {
        if bits & ACCESS_DEPTH_STENCIL_WRITE != 0 {
            LAYOUT_DEPTH_STENCIL_ATTACHMENT
        } else {
            LAYOUT_DEPTH_STENCIL_READ_ONLY
        }
    } else if bits & !SAMPLED_BITS == 0 {
        LAYOUT_SHADER_READ_ONLY
    } else if bits & !ACCESS_PRESENT == 0 {
        LAYOUT_PRESENT_SRC
    } else {
        LAYOUT_GENERAL
    }
}

pub open spec fn flag_if(bits: u32, mask: u32, flag: u32) -> u32 {
    if bits & mask != 0 { flag } else { 0 }
}

/// The image usage an image needs for an access.
pub open spec fn image_usage_of(bits: u32) -> u32 {
    flag_if(bits, TRANSFER_DST_BITS, IMAGE_USAGE_TRANSFER_DST)
        | flag_if(bits, TRANSFER_SRC_BITS, IMAGE_USAGE_TRANSFER_SRC)
        | flag_if(bits, COLOR_BITS, IMAGE_USAGE_COLOR_ATTACHMENT)
        | flag_if(bits, DEPTH_STENCIL_BITS, IMAGE_USAGE_DEPTH_STENCIL_ATTACHMENT)
        | flag_if(bits, SAMPLED_BITS, IMAGE_USAGE_SAMPLED)
        | flag_if(bits, STORAGE_BITS, IMAGE_USAGE_STORAGE)
        | flag_if(bits, ACCESS_INPUT_ATTACHMENT_READ, IMAGE_USAGE_INPUT_ATTACHMENT)
}

/// The buffer usage a buffer needs for an access.
pub open spec fn buffer_usage_of(bits: u32) -> u32 {
    flag_if(bits, ACCESS_COPY_READ | ACCESS_BLIT_READ, BUFFER_USAGE_TRANSFER_SRC)
        | flag_if(bits, ACCESS_COPY_WRITE, BUFFER_USAGE_TRANSFER_DST)
        | flag_if(bits, STORAGE_BITS, BUFFER_USAGE_STORAGE_BUFFER)
        | flag_if(bits, UNIFORM_BITS, BUFFER_USAGE_UNIFORM_BUFFER)
        | flag_if(bits, ACCESS_ATTRIBUTE_READ, BUFFER_USAGE_VERTEX_BUFFER)
        | flag_if(bits, ACCESS_INDEX_READ, BUFFER_USAGE_INDEX_BUFFER)
        | flag_if(bits, ACCESS_INDIRECT_READ, BUFFER_USAGE_INDIRECT_BUFFER)
}

/// The sampled access of the stages that read a descriptor.
pub open spec fn sampled_by_spec(stages: u32) -> u32 {
    flag_if(stages, STAGE_VERTEX, ACCESS_VERTEX_SAMPLED)
        | flag_if(stages, STAGE_FRAGMENT, ACCESS_FRAGMENT_SAMPLED)
        | flag_if(stages, STAGE_COMPUTE, ACCESS_COMPUTE_SAMPLED)
}

/// The uniform-buffer read of the stages that read a descriptor.
pub open spec fn uniform_by_spec(stages: u32) -> u32 {
    flag_if(stages, STAGE_VERTEX, ACCESS_VERTEX_UNIFORM_READ)
        | flag_if(stages, STAGE_FRAGMENT, ACCESS_FRAGMENT_UNIFORM_READ)
        | flag_if(stages, STAGE_COMPUTE, ACCESS_COMPUTE_UNIFORM_READ)
}

/// The storage read of the stages that read a descriptor.
pub open spec fn shader_read_by_spec(stages: u32) -> u32 {
    flag_if(stages, STAGE_VERTEX, ACCESS_VERTEX_READ)
        | flag_if(stages, STAGE_FRAGMENT, ACCESS_FRAGMENT_READ)
        | flag_if(stages, STAGE_COMPUTE, ACCESS_COMPUTE_READ)
}

/// The storage write of the stages that write through a descriptor.
pub open spec fn shader_write_by_spec(stages: u32) -> u32 {
    flag_if(stages, STAGE_VERTEX, ACCESS_VERTEX_WRITE)
        | flag_if(stages, STAGE_FRAGMENT, ACCESS_FRAGMENT_WRITE)
        | flag_if(stages, STAGE_COMPUTE, ACCESS_COMPUTE_WRITE)
}

/// The acceleration-structure read of the stages that trace through a descriptor.
pub open spec fn acceleration_structure_read_by_spec(stages: u32) -> u32 {
    flag_if(stages, STAGE_VERTEX, ACCESS_VERTEX_ACCELERATION_STRUCTURE_READ)
        | flag_if(stages, STAGE_FRAGMENT, ACCESS_FRAGMENT_ACCELERATION_STRUCTURE_READ)
        | flag_if(stages, STAGE_COMPUTE, ACCESS_COMPUTE_ACCELERATION_STRUCTURE_READ)
}

fn flag_if_exec(bits: u32, mask: u32, flag: u32) -> (r: u32)
    ensures
        r == flag_if(bits, mask, flag),
{
    if bits & mask != 0 {
        flag
    } else {
        0
    }
}

impl Access {
    pub open spec fn spec_reads(self) -> bool {
        self.0 & ACCESS_READS != 0
    }

    pub open spec fn spec_writes(self) -> bool {
        self.0 & ACCESS_WRITES != 0
    }

    /// Whether any of the accesses reads the memory it reaches.
    #[verifier::when_used_as_spec(spec_reads)]
    pub fn reads(self) -> (r: bool)
        ensures
            r == self.spec_reads(),
    {
        self.0 & ACCESS_READS != 0
    }

    /// Whether any of the accesses changes the memory it reaches.
    #[verifier::when_used_as_spec(spec_writes)]
    pub fn writes(self) -> (r: bool)
        ensures
            r == self.spec_writes(),
    {
        self.0 & ACCESS_WRITES != 0
    }

    pub fn is_empty(self) -> (r: bool)
        ensures
            r == (self.0 == 0),
    {
        self.0 == 0
    }

    /// Both sets of accesses at once.
    pub fn union(self, other: Access) -> (r: Access)
        ensures
            r.0 == self.0 | other.0,
    {
        Access(self.0 | other.0)
    }

    pub fn contains(self, other: Access) -> (r: bool)
        ensures
            r == (self.0 & other.0 == other.0),
    {
        self.0 & other.0 == other.0
    }

    pub fn intersects(self, other: Access) -> (r: bool)
        ensures
            r == (self.0 & other.0 != 0),
    {
        self.0 & other.0 != 0
    }

    /// The layout an image is transitioned to before these accesses reach it.
    pub fn layout(self) -> (r: i32)
        ensures
            r == layout_of(self.0),
    {
        let bits = self.0;
        if bits == 0 {
            LAYOUT_UNDEFINED
        } else if bits & !TRANSFER_DST_BITS == 0 {
            LAYOUT_TRANSFER_DST
        } else if bits & !TRANSFER_SRC_BITS == 0 {
            LAYOUT_TRANSFER_SRC
        } else if bits & !COLOR_BITS == 0 {
            LAYOUT_COLOR_ATTACHMENT
        } else if bits & !DEPTH_STENCIL_BITS == 0 {
            if bits & ACCESS_DEPTH_STENCIL_WRITE != 0 {
                LAYOUT_DEPTH_STENCIL_ATTACHMENT
            } else {
                LAYOUT_DEPTH_STENCIL_READ_ONLY
            }
        } else if bits & !SAMPLED_BITS == 0 {
            LAYOUT_SHADER_READ_ONLY
        } else if bits & !ACCESS_PRESENT == 0 {
            LAYOUT_PRESENT_SRC
        } else {
            LAYOUT_GENERAL
        }
    }

    /// The image usage an image reached this way has to be created with.
    pub fn image_usage(self) -> (r: u32)
        ensures
            r == image_usage_of(self.0),
    {
        let bits = self.0;
        flag_if_exec(bits, TRANSFER_DST_BITS, IMAGE_USAGE_TRANSFER_DST) | flag_if_exec(
            bits,
            TRANSFER_SRC_BITS,
            IMAGE_USAGE_TRANSFER_SRC,
        ) | flag_if_exec(bits, COLOR_BITS, IMAGE_USAGE_COLOR_ATTACHMENT) | flag_if_exec(
            bits,
            DEPTH_STENCIL_BITS,
            IMAGE_USAGE_DEPTH_STENCIL_ATTACHMENT,
        ) | flag_if_exec(bits, SAMPLED_BITS, IMAGE_USAGE_SAMPLED) | flag_if_exec(
            bits,
            STORAGE_BITS,
            IMAGE_USAGE_STORAGE,
        ) | flag_if_exec(bits, ACCESS_INPUT_ATTACHMENT_READ, IMAGE_USAGE_INPUT_ATTACHMENT)
    }

    /// The buffer usage a buffer reached this way has to be created with.
    pub fn buffer_usage(self) -> (r: u32)
        ensures
            r == buffer_usage_of(self.0),
    {
        let bits = self.0;
        flag_if_exec(bits, ACCESS_COPY_READ | ACCESS_BLIT_READ, BUFFER_USAGE_TRANSFER_SRC)
            | flag_if_exec(bits, ACCESS_COPY_WRITE, BUFFER_USAGE_TRANSFER_DST) | flag_if_exec(
            bits,
            STORAGE_BITS,
            BUFFER_USAGE_STORAGE_BUFFER,
        ) | flag_if_exec(bits, UNIFORM_BITS, BUFFER_USAGE_UNIFORM_BUFFER)
            | flag_if_exec(bits, ACCESS_ATTRIBUTE_READ, BUFFER_USAGE_VERTEX_BUFFER) | flag_if_exec(
            bits,
            ACCESS_INDEX_READ,
            BUFFER_USAGE_INDEX_BUFFER,
        ) | flag_if_exec(bits, ACCESS_INDIRECT_READ, BUFFER_USAGE_INDIRECT_BUFFER)
    }

    /// What the stages that read a sampled descriptor do to its image.
    pub fn sampled_by(stages: u32) -> (r: Access)
        ensures
            r.0 == sampled_by_spec(stages),
    {
        Access(
            flag_if_exec(stages, STAGE_VERTEX, ACCESS_VERTEX_SAMPLED) | flag_if_exec(
                stages,
                STAGE_FRAGMENT,
                ACCESS_FRAGMENT_SAMPLED,
            ) | flag_if_exec(stages, STAGE_COMPUTE, ACCESS_COMPUTE_SAMPLED),
        )
    }

    /// What the stages that read a uniform buffer do to it.
    pub fn uniform_by(stages: u32) -> (r: Access)
        ensures
            r.0 == uniform_by_spec(stages),
    {
        Access(
            flag_if_exec(stages, STAGE_VERTEX, ACCESS_VERTEX_UNIFORM_READ) | flag_if_exec(
                stages,
                STAGE_FRAGMENT,
                ACCESS_FRAGMENT_UNIFORM_READ,
            ) | flag_if_exec(stages, STAGE_COMPUTE, ACCESS_COMPUTE_UNIFORM_READ),
        )
    }

    /// What the stages that read a storage descriptor do to it.
    pub fn shader_read_by(stages: u32) -> (r: Access)
        ensures
            r.0 == shader_read_by_spec(stages),
    {
        Access(
            flag_if_exec(stages, STAGE_VERTEX, ACCESS_VERTEX_READ) | flag_if_exec(
                stages,
                STAGE_FRAGMENT,
                ACCESS_FRAGMENT_READ,
            ) | flag_if_exec(stages, STAGE_COMPUTE, ACCESS_COMPUTE_READ),
        )
    }

    /// What the stages that write through a storage descriptor do to it.
    pub fn shader_write_by(stages: u32) -> (r: Access)
        ensures
            r.0 == shader_write_by_spec(stages),
    {
        Access(
            flag_if_exec(stages, STAGE_VERTEX, ACCESS_VERTEX_WRITE) | flag_if_exec(
                stages,
                STAGE_FRAGMENT,
                ACCESS_FRAGMENT_WRITE,
            ) | flag_if_exec(stages, STAGE_COMPUTE, ACCESS_COMPUTE_WRITE),
        )
    }

    /// What the stages that trace through an acceleration structure do to it.
    pub fn acceleration_structure_read_by(stages: u32) -> (r: Access)
        ensures
            r.0 == acceleration_structure_read_by_spec(stages),
    {
        Access(
            flag_if_exec(stages, STAGE_VERTEX, ACCESS_VERTEX_ACCELERATION_STRUCTURE_READ) | flag_if_exec(
                stages,
                STAGE_FRAGMENT,
                ACCESS_FRAGMENT_ACCELERATION_STRUCTURE_READ,
            ) | flag_if_exec(stages, STAGE_COMPUTE, ACCESS_COMPUTE_ACCELERATION_STRUCTURE_READ),
        )
    }
}

/// The queue domains a release can hand a resource to.
pub const DOMAIN_HOST: u32 = 1 << 0;
pub const DOMAIN_PRESENT: u32 = 1 << 1;
pub const DOMAIN_GRAPHICS: u32 = 1 << 2;
pub const DOMAIN_COMPUTE: u32 = 1 << 3;
pub const DOMAIN_TRANSFER: u32 = 1 << 4;

} // verus!
