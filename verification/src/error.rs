//! The errors that the models report.
use vstd::prelude::*;

verus! {

/// A reason why a model rejected its input.
#[derive(Clone, Copy, Debug, PartialEq, Eq, Structural)]
pub enum ModelError {
    /// A shape has a zero extent in the given dimension.
    ZeroSizedDimension { dimension: usize },
    /// The number of elements of a shape does not fit in `usize`.
    ElementCountOverflow,
    /// The storage size of a tensor or view does not fit in `usize`.
    StorageSizeOverflow,
    /// A tensor does not fit in the physical address space.
    AddressSpaceExceeded,
    /// A view has a different rank from its tensor.
    ViewRankMismatch,
    /// A view's offsets have a different rank from its tensor.
    ViewOffsetRankMismatch,
    /// A view offset plus its extent overflows.
    ViewExtentOverflow,
    /// A view reaches past the end of its tensor in the given dimension.
    ViewOutOfRange { dimension: usize },
    /// A partition offset plus its extent overflows.
    PartitionExtentOverflow,
    /// A partition reaches past the end of the view it partitions.
    PartitionOutOfRange,
    /// A partition moves a view offset past `usize::MAX`.
    PartitionOffsetOverflow,
    /// The working set of a partition overflows `usize`.
    WorkingSetOverflow,
    /// An operator received the wrong number of inputs.
    WrongInputCount { found: usize },
    /// An operator input is missing.
    MissingInput { index: usize },
    /// An operator received the wrong number of outputs.
    WrongOutputCount { found: usize },
    /// An operator output is missing.
    MissingOutput { index: usize },
    /// Two shapes cannot be broadcast together.
    CannotBroadcast,
    /// An output shape does not match the shape the operator computes.
    InvalidOutputShape,
    /// A matrix operand has fewer than two dimensions.
    RankBelowTwo,
    /// Neither operand of a matrix product has two dimensions.
    OperandsBelowTwoDims,
    /// The inner dimensions of a matrix product differ.
    IncompatibleK,
    /// The optional addend of a matrix product has an incompatible shape.
    IncompatibleInputC,
    /// Inputs and output of a matrix product have different ranks.
    IncompatibleRanks,
    /// An outer output dimension of a matrix product is wrong.
    InvalidOutputDimension { dimension: usize },
    /// The M or N dimension of a matrix product output is wrong.
    InvalidMN,
    /// A pooling parameter is invalid, for the given reason.
    InvalidPoolParameter { reason: PoolParamError },
    /// A pooling window produces an empty output dimension.
    EmptyPoolOutput,
    /// A pooling partition produced an empty input view.
    EmptyPoolPartition,
    /// The indices output of a pooling operator has a different shape from
    /// its values output.
    InvalidIndicesShape,
    /// The indices output of a pooling operator does not hold 64-bit
    /// integers.
    InvalidIndicesDtype,
    /// The output of a pooling operator has a different element type from
    /// its input.
    PoolDtypeMismatch,
    /// The maximum number of fabric ports overflows.
    MaxPortCountOverflow,
    /// The number of populated fabric ports overflows.
    PortCountOverflow,
    /// A fabric has fewer than two populated ports.
    TooFewPorts { found: usize },
    /// A fabric port receive buffer has no capacity.
    ZeroReceiveBuffer,
    /// A fabric port transmit buffer has no capacity.
    ZeroTransmitBuffer,
    /// A fabric port has no transfer rate.
    ZeroLinkRate,
    /// A memory region has zero size.
    InvalidRegionSize,
    /// A memory region overlaps one already mapped, at the given address.
    RegionOverlap { address: u64 },
    /// No coherency manager memory map is configured.
    NoCoherencyManagerMap,
    /// No coherency manager is mapped for the given address.
    NoCoherencyManagerForAddress { address: u64 },
    /// No backing memory is mapped for the given address.
    NoBackingMemoryForAddress { address: u64 },
    /// A compute task requires memory but the processing element has none.
    NoSram,
    /// A compute task does not fit in the memory of its processing element.
    DoesNotFit { required_bytes: usize },
    /// Custom operators cannot generate tensors.
    CustomCannotGenerate,
    /// A coherent access spans two backing memories.
    SpansMultipleBackingMemories { begin: u64, end: u64 },
    /// A response was asked of a message that has none.
    UnsupportedResponse,
    /// A cache sent a request the coherence manager does not serve.
    UnsupportedCoherenceRequest,
    /// An invalidate ack came for a line that awaits none.
    UnexpectedInvalidateAck { line: u64 },
    /// The request a line waited on cannot be resumed.
    UnsupportedPendingRequest,
    /// A memory response came for a line that awaits none.
    UnexpectedMemoryResponse { line: u64 },
    /// A cache was asked for a line in the invalid coherence state.
    InvalidCoherenceState,
    /// A modified victim could not be evicted.
    EvictionFailed { address: u64 },
    /// An allocation still needed a writeback after its victim was evicted.
    StillNeedsWriteback { address: u64 },
    /// A device sent a control access other than an invalidate.
    UnsupportedDeviceControl,
    /// A device sent a response to a cache.
    UnsupportedDeviceAccess,
    /// A barrier response came without an active barrier.
    BarrierResponseWithoutBarrier,
    /// The memory side sent a control access a cache does not serve.
    UnsupportedMemoryControl,
    /// The memory side sent a request to a cache.
    UnsupportedResponseAccess,
    /// An address that no region of a memory map holds.
    AddressNotMapped { address: u64 },
    /// An access larger than the SRAM of the processing element.
    AccessExceedsSram { bytes: usize },
    /// A response arrived for a request slot that is not in use.
    SlotNotInUse { slot: usize },
    /// A request slot in use holds no response to handle.
    MissingResponse { slot: usize },
    /// A queued request belongs to a slot that is not in use.
    RequestSlotIdle { slot: usize },
    /// A queued request slot holds no request.
    MissingRequest { slot: usize },
    /// A response names a request slot that does not exist.
    InvalidResponseSlot { index: u64 },
    /// The address of a tensor view does not fit in 64 bits.
    ViewAddressOverflow,
    /// A memory received an access it does not serve.
    UnsupportedMemoryAccess,
    /// A generator produced an identifier it had produced before.
    DuplicateId { id: u64 },
    /// A response arrived that no request expects.
    UnexpectedId { id: u64 },
}

/// Why the attributes of a pooling operator do not fit its tensors.
#[derive(Clone, Copy, Debug, PartialEq, Eq, Structural)]
pub enum PoolParamError {
    /// The input has fewer than three dimensions.
    InputRankBelowThree,
    /// The output has fewer than three dimensions.
    OutputRankBelowThree,
    /// There is no spatial dimension.
    NoSpatialDims,
    /// The kernel shape has a different rank from the spatial dimensions.
    KernelRankMismatch,
    /// A kernel extent is zero.
    ZeroKernel,
    /// The storage order is neither 0 nor 1.
    InvalidStorageOrder,
    /// Explicit pads are given together with automatic padding.
    PadsWithAutoPad,
    /// The strides have a different rank from the spatial dimensions.
    StridesRankMismatch,
    /// The dilations have a different rank from the spatial dimensions.
    DilationsRankMismatch,
    /// The pads are not two per spatial dimension.
    PadsRankMismatch,
    /// A stride is zero.
    ZeroStride,
    /// A dilation is zero.
    ZeroDilation,
    /// A spatial input extent is zero.
    ZeroSpatialInput,
    /// A spatial output extent is zero.
    ZeroSpatialOutput,
}

/// The description of a problem with MaxPool attributes.
pub open spec fn pool_param_text(x: PoolParamError) -> Seq<char> {
    match x {
        PoolParamError::InputRankBelowThree => "MaxPool: input rank must be at least 3"@,
        PoolParamError::OutputRankBelowThree => "MaxPool: output rank must be at least 3"@,
        PoolParamError::NoSpatialDims => "MaxPool: input must contain at least one spatial dimension"@,
        PoolParamError::KernelRankMismatch => "MaxPool: kernel_shape rank does not match spatial rank"@,
        PoolParamError::ZeroKernel => "MaxPool: kernel_shape entries must be greater than zero"@,
        PoolParamError::InvalidStorageOrder => "MaxPool: storage_order must be 0 or 1"@,
        PoolParamError::PadsWithAutoPad => "MaxPool: pads cannot be used with auto_pad"@,
        PoolParamError::StridesRankMismatch => "MaxPool: strides rank does not match spatial rank"@,
        PoolParamError::DilationsRankMismatch => "MaxPool: dilations rank does not match spatial rank"@,
        PoolParamError::PadsRankMismatch => "MaxPool: pads rank does not match 2 * spatial rank"@,
        PoolParamError::ZeroStride => "MaxPool: strides entries must be greater than zero"@,
        PoolParamError::ZeroDilation => "MaxPool: dilations entries must be greater than zero"@,
        PoolParamError::ZeroSpatialInput => "MaxPool: input spatial dimensions must be greater than zero"@,
        PoolParamError::ZeroSpatialOutput => "MaxPool: output spatial dimensions must be greater than zero"@,
    }
}

impl PoolParamError {
    /// A description of the problem.
    pub fn message(&self) -> (text: &'static str)
        ensures
            text@ == pool_param_text(*self),
    {
        match self {
            PoolParamError::InputRankBelowThree => "MaxPool: input rank must be at least 3",
            PoolParamError::OutputRankBelowThree => "MaxPool: output rank must be at least 3",
            PoolParamError::NoSpatialDims => "MaxPool: input must contain at least one spatial dimension",
            PoolParamError::KernelRankMismatch => "MaxPool: kernel_shape rank does not match spatial rank",
            PoolParamError::ZeroKernel => "MaxPool: kernel_shape entries must be greater than zero",
            PoolParamError::InvalidStorageOrder => "MaxPool: storage_order must be 0 or 1",
            PoolParamError::PadsWithAutoPad => "MaxPool: pads cannot be used with auto_pad",
            PoolParamError::StridesRankMismatch => "MaxPool: strides rank does not match spatial rank",
            PoolParamError::DilationsRankMismatch => "MaxPool: dilations rank does not match spatial rank",
            PoolParamError::PadsRankMismatch => "MaxPool: pads rank does not match 2 * spatial rank",
            PoolParamError::ZeroStride => "MaxPool: strides entries must be greater than zero",
            PoolParamError::ZeroDilation => "MaxPool: dilations entries must be greater than zero",
            PoolParamError::ZeroSpatialInput => "MaxPool: input spatial dimensions must be greater than zero",
            PoolParamError::ZeroSpatialOutput => "MaxPool: output spatial dimensions must be greater than zero",
        }
    }
}

/// The description of an error.
pub open spec fn model_error_text(x: ModelError) -> Seq<char> {
    match x {
        ModelError::ZeroSizedDimension { .. } => "Shape has zero size in a dimension"@,
        ModelError::ElementCountOverflow => "Shape element count overflows"@,
        ModelError::StorageSizeOverflow => "storage size overflows"@,
        ModelError::AddressSpaceExceeded => "Tensor exceeds the physical address space"@,
        ModelError::ViewRankMismatch => "Tensor view shape rank does not match tensor rank"@,
        ModelError::ViewOffsetRankMismatch => "Tensor view offset rank does not match tensor rank"@,
        ModelError::ViewExtentOverflow => "Tensor view offset plus extent overflows"@,
        ModelError::ViewOutOfRange { .. } => "Tensor view range is out of range for dimension"@,
        ModelError::PartitionExtentOverflow => "Tensor view partition extent overflows"@,
        ModelError::PartitionOutOfRange => "Tensor view partition range is out of range for dimension"@,
        ModelError::PartitionOffsetOverflow => "Tensor view partition offset overflows"@,
        ModelError::WorkingSetOverflow => "Tensor partition byte count overflows"@,
        ModelError::WrongInputCount { .. } => "wrong number of inputs"@,
        ModelError::MissingInput { .. } => "missing input"@,
        ModelError::WrongOutputCount { .. } => "wrong number of outputs"@,
        ModelError::MissingOutput { .. } => "missing output"@,
        ModelError::CannotBroadcast => "cannot broadcast shapes"@,
        ModelError::InvalidOutputShape => "Invalid output shape"@,
        ModelError::RankBelowTwo => "input A must be at least 2D"@,
        ModelError::OperandsBelowTwoDims => "inputs must be at least 2D"@,
        ModelError::IncompatibleK => "incompatible K"@,
        ModelError::IncompatibleInputC => "input C incompatible"@,
        ModelError::IncompatibleRanks => "incompatible ranks"@,
        ModelError::InvalidOutputDimension { .. } => "Invalid output dimension"@,
        ModelError::InvalidMN => "Invalid M or N"@,
        ModelError::InvalidPoolParameter { reason } => pool_param_text(reason),
        ModelError::EmptyPoolOutput => "pooling window produces an empty output dimension"@,
        ModelError::EmptyPoolPartition => "partition produced an empty input view"@,
        ModelError::InvalidIndicesShape => "Indices shape must match output shape"@,
        ModelError::InvalidIndicesDtype => "Indices dtype must be Int64"@,
        ModelError::PoolDtypeMismatch => "output dtype must match input dtype"@,
        ModelError::MaxPortCountOverflow => "maximum port count overflows"@,
        ModelError::PortCountOverflow => "populated port count overflows"@,
        ModelError::TooFewPorts { .. } => "too few populated ports; at least 2 are required"@,
        ModelError::ZeroReceiveBuffer => "receive buffer size must be greater than zero"@,
        ModelError::ZeroTransmitBuffer => "transmit buffer size must be greater than zero"@,
        ModelError::ZeroLinkRate => "link rate must be greater than zero"@,
        ModelError::InvalidRegionSize => "Invalid region size 0"@,
        ModelError::RegionOverlap { .. } => "Region overlap"@,
        ModelError::NoCoherencyManagerMap => "No coherency manager memory map configured"@,
        ModelError::NoCoherencyManagerForAddress { .. } => "No coherency manager mapped for address"@,
        ModelError::NoBackingMemoryForAddress { .. } => "No backing memory mapped for address"@,
        ModelError::NoSram => "Compute task requires memory but the PE has no SRAM"@,
        ModelError::DoesNotFit { .. } => "a partition at the maximum useful partition count does not fit in SRAM"@,
        ModelError::CustomCannotGenerate => "Custom operators cannot generate tensors"@,
        ModelError::SpansMultipleBackingMemories { .. } => "Coherence access spans multiple backing memories"@,
        ModelError::UnsupportedResponse => "unsupported by to_response()"@,
        ModelError::UnsupportedCoherenceRequest => "unsupported request"@,
        ModelError::UnexpectedInvalidateAck { .. } => "Unexpected invalidate ack"@,
        ModelError::UnsupportedPendingRequest => "Unsupported pending request after invalidations"@,
        ModelError::UnexpectedMemoryResponse { .. } => "Unexpected memory response"@,
        ModelError::InvalidCoherenceState => "Cannot request invalid coherence state"@,
        ModelError::EvictionFailed { .. } => "failed to evict modified line before allocating access"@,
        ModelError::StillNeedsWriteback { .. } => "allocation still requires writeback after evicting line"@,
        ModelError::UnsupportedDeviceControl => "unsupported coherence op on device control access"@,
        ModelError::UnsupportedDeviceAccess => "unsupported AccessType from device"@,
        ModelError::BarrierResponseWithoutBarrier => "received barrier response without active barrier"@,
        ModelError::UnsupportedMemoryControl => "unsupported coherence op on memory control access"@,
        ModelError::UnsupportedResponseAccess => "unsupported access on response port"@,
        ModelError::AddressNotMapped { .. } => "address not mapped"@,
        ModelError::AccessExceedsSram { .. } => "PE cannot do a memory access larger than its SRAM"@,
        ModelError::SlotNotInUse { .. } => "Response when slot not in use."@,
        ModelError::MissingResponse { .. } => "handle_response_in_slot called with no response in slot"@,
        ModelError::RequestSlotIdle { .. } => "Request sent when slot not in_use"@,
        ModelError::MissingRequest { .. } => "Request for slot while request still None."@,
        ModelError::InvalidResponseSlot { .. } => "Invalid index in response"@,
        ModelError::ViewAddressOverflow => "Tensor view address overflows"@,
        ModelError::UnsupportedMemoryAccess => "unsupported access received by memory"@,
        ModelError::DuplicateId { .. } => "Generator produced duplicate ID"@,
        ModelError::UnexpectedId { .. } => "received when not expected"@,
    }
}

impl ModelError {
    /// A description of the error.
    pub fn message(&self) -> (text: &'static str)
        ensures
            text@ == model_error_text(*self),
    {
        match self {
            ModelError::ZeroSizedDimension { .. } => "Shape has zero size in a dimension",
            ModelError::ElementCountOverflow => "Shape element count overflows",
            ModelError::StorageSizeOverflow => "storage size overflows",
            ModelError::AddressSpaceExceeded => "Tensor exceeds the physical address space",
            ModelError::ViewRankMismatch => "Tensor view shape rank does not match tensor rank",
            ModelError::ViewOffsetRankMismatch => "Tensor view offset rank does not match tensor rank",
            ModelError::ViewExtentOverflow => "Tensor view offset plus extent overflows",
            ModelError::ViewOutOfRange { .. } => "Tensor view range is out of range for dimension",
            ModelError::PartitionExtentOverflow => "Tensor view partition extent overflows",
            ModelError::PartitionOutOfRange => "Tensor view partition range is out of range for dimension",
            ModelError::PartitionOffsetOverflow => "Tensor view partition offset overflows",
            ModelError::WorkingSetOverflow => "Tensor partition byte count overflows",
            ModelError::WrongInputCount { .. } => "wrong number of inputs",
            ModelError::MissingInput { .. } => "missing input",
            ModelError::WrongOutputCount { .. } => "wrong number of outputs",
            ModelError::MissingOutput { .. } => "missing output",
            ModelError::CannotBroadcast => "cannot broadcast shapes",
            ModelError::InvalidOutputShape => "Invalid output shape",
            ModelError::RankBelowTwo => "input A must be at least 2D",
            ModelError::OperandsBelowTwoDims => "inputs must be at least 2D",
            ModelError::IncompatibleK => "incompatible K",
            ModelError::IncompatibleInputC => "input C incompatible",
            ModelError::IncompatibleRanks => "incompatible ranks",
            ModelError::InvalidOutputDimension { .. } => "Invalid output dimension",
            ModelError::InvalidMN => "Invalid M or N",
            ModelError::InvalidPoolParameter { reason } => reason.message(),
            ModelError::EmptyPoolOutput => "pooling window produces an empty output dimension",
            ModelError::EmptyPoolPartition => "partition produced an empty input view",
            ModelError::InvalidIndicesShape => "Indices shape must match output shape",
            ModelError::InvalidIndicesDtype => "Indices dtype must be Int64",
            ModelError::PoolDtypeMismatch => "output dtype must match input dtype",
            ModelError::MaxPortCountOverflow => "maximum port count overflows",
            ModelError::PortCountOverflow => "populated port count overflows",
            ModelError::TooFewPorts { .. } => "too few populated ports; at least 2 are required",
            ModelError::ZeroReceiveBuffer => "receive buffer size must be greater than zero",
            ModelError::ZeroTransmitBuffer => "transmit buffer size must be greater than zero",
            ModelError::ZeroLinkRate => "link rate must be greater than zero",
            ModelError::InvalidRegionSize => "Invalid region size 0",
            ModelError::RegionOverlap { .. } => "Region overlap",
            ModelError::NoCoherencyManagerMap => "No coherency manager memory map configured",
            ModelError::NoCoherencyManagerForAddress { .. } => "No coherency manager mapped for address",
            ModelError::NoBackingMemoryForAddress { .. } => "No backing memory mapped for address",
            ModelError::NoSram => "Compute task requires memory but the PE has no SRAM",
            ModelError::DoesNotFit { .. } => "a partition at the maximum useful partition count does not fit in SRAM",
            ModelError::CustomCannotGenerate => "Custom operators cannot generate tensors",
            ModelError::SpansMultipleBackingMemories { .. } => "Coherence access spans multiple backing memories",
            ModelError::UnsupportedResponse => "unsupported by to_response()",
            ModelError::UnsupportedCoherenceRequest => "unsupported request",
            ModelError::UnexpectedInvalidateAck { .. } => "Unexpected invalidate ack",
            ModelError::UnsupportedPendingRequest => "Unsupported pending request after invalidations",
            ModelError::UnexpectedMemoryResponse { .. } => "Unexpected memory response",
            ModelError::InvalidCoherenceState => "Cannot request invalid coherence state",
            ModelError::EvictionFailed { .. } => "failed to evict modified line before allocating access",
            ModelError::StillNeedsWriteback { .. } => "allocation still requires writeback after evicting line",
            ModelError::UnsupportedDeviceControl => "unsupported coherence op on device control access",
            ModelError::UnsupportedDeviceAccess => "unsupported AccessType from device",
            ModelError::BarrierResponseWithoutBarrier => "received barrier response without active barrier",
            ModelError::UnsupportedMemoryControl => "unsupported coherence op on memory control access",
            ModelError::UnsupportedResponseAccess => "unsupported access on response port",
            ModelError::AddressNotMapped { .. } => "address not mapped",
            ModelError::AccessExceedsSram { .. } => "PE cannot do a memory access larger than its SRAM",
            ModelError::SlotNotInUse { .. } => "Response when slot not in use.",
            ModelError::MissingResponse { .. } => "handle_response_in_slot called with no response in slot",
            ModelError::RequestSlotIdle { .. } => "Request sent when slot not in_use",
            ModelError::MissingRequest { .. } => "Request for slot while request still None.",
            ModelError::InvalidResponseSlot { .. } => "Invalid index in response",
            ModelError::ViewAddressOverflow => "Tensor view address overflows",
            ModelError::UnsupportedMemoryAccess => "unsupported access received by memory",
            ModelError::DuplicateId { .. } => "Generator produced duplicate ID",
            ModelError::UnexpectedId { .. } => "received when not expected",
        }
    }
}

} // verus!
