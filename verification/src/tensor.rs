//! Shapes and tensors.
use vstd::prelude::*;

use crate::dtype::{DataType, bits_of};
use crate::error::ModelError;
use crate::util::{all_positive, copy_slice, lemma_product_prefix_le, lemma_product_take_step, seq_product};

verus! {

/// A shape is valid when every extent is positive and the element count fits
/// in `usize`.
pub open spec fn dims_valid(dims: Seq<usize>) -> bool {
    all_positive(dims) && seq_product(dims) <= usize::MAX
}

/// The index of the first zero extent, where there is one.
pub open spec fn first_zero(dims: Seq<usize>) -> int
    decreases dims.len(),
{
    if dims.len() == 0 {
        0
    } else if dims[0] == 0 {
        0
    } else {
        1 + first_zero(dims.drop_first())
    }
}

/// The error that a shape with these extents is rejected with.
pub open spec fn shape_error(dims: Seq<usize>) -> ModelError {
    if !all_positive(dims) {
        ModelError::ZeroSizedDimension { dimension: first_zero(dims) as usize }
    } else {
        ModelError::ElementCountOverflow
    }
}

/// Extent `index` of a shape left-padded with ones to `total_dims` extents.
pub open spec fn padded_dim(dims: Seq<usize>, total_dims: int, index: int) -> usize {
    let dim_index = total_dims - index;
    if dim_index <= dims.len() {
        dims[dims.len() - dim_index]
    } else {
        1
    }
}

/// The number of bytes needed to pack `num_elements` elements of `bits` bits.
pub open spec fn packed_bytes(num_elements: nat, bits: nat) -> nat {
    ((num_elements * bits + 7) / 8) as nat
}

proof fn lemma_first_zero(dims: Seq<usize>)
    requires
        !all_positive(dims),
    ensures
        0 <= first_zero(dims) < dims.len(),
        dims[first_zero(dims)] == 0,
        forall|j: int| 0 <= j < first_zero(dims) ==> dims[j] != 0,
    decreases dims.len(),
{
    if dims[0] != 0 {
        let k = choose|k: int| 0 <= k < dims.len() && !(dims[k] > 0);
        assert(dims.drop_first()[k - 1] == dims[k]);
        lemma_first_zero(dims.drop_first());
        assert forall|j: int| 0 <= j < first_zero(dims) implies dims[j] != 0 by {
            if j > 0 {
                assert(dims[j] == dims.drop_first()[j - 1]);
            }
        }
    }
}

/// The extents of a tensor or of a view.
#[derive(Debug, PartialEq, Eq)]
pub struct Shape {
    dims: Vec<usize>,
}

impl View for Shape {
    type V = Seq<usize>;

    closed spec fn view(&self) -> Seq<usize> {
        self.dims@
    }
}

impl Clone for Shape {
    fn clone(&self) -> (copy: Self)
        ensures
            copy@ == self@,
    {
        proof {
            use_type_invariant(self);
        }
        Shape { dims: copy_slice(self.dims.as_slice()) }
    }
}

/// Check that `dims` is a valid shape.
fn check_dims(dims: &[usize]) -> (result: Result<(), ModelError>)
    ensures
        match result {
            Ok(()) => dims_valid(dims@),
            Err(e) => !dims_valid(dims@) && e == shape_error(dims@),
        },
{
    let mut i: usize = 0;
    while i < dims.len()
        invariant
            i <= dims@.len(),
            forall|j: int| 0 <= j < i ==> dims@[j] > 0,
        decreases dims@.len() - i,
    {
        if dims[i] == 0 {
            proof {
                lemma_first_zero(dims@);
                if first_zero(dims@) < i {
                    assert(dims@[first_zero(dims@)] > 0);
                }
                if first_zero(dims@) > i {
                    assert(dims@[i as int] != 0);
                }
            }
            return Err(ModelError::ZeroSizedDimension { dimension: i });
        }
        i = i + 1;
    }
    let mut product: usize = 1;
    let mut i: usize = 0;
    assert(dims@.take(0) =~= Seq::<usize>::empty());
    while i < dims.len()
        invariant
            i <= dims@.len(),
            all_positive(dims@),
            product as nat == seq_product(dims@.take(i as int)),
        decreases dims@.len() - i,
    {
        proof {
            lemma_product_take_step(dims@, i as int);
        }
        match product.checked_mul(dims[i]) {
            Some(next) => {
                product = next;
            },
            None => {
                proof {
                    lemma_product_prefix_le(dims@, i as int + 1);
                }
                return Err(ModelError::ElementCountOverflow);
            },
        }
        i = i + 1;
    }
    assert(dims@.take(dims@.len() as int) =~= dims@);
    Ok(())
}

impl Shape {
    #[verifier::type_invariant]
    spec fn shape_invariant(self) -> bool {
        dims_valid(self.dims@)
    }

    /// Create a shape, rejecting zero extents and element counts that
    /// overflow.
    pub fn new(dims: &[usize]) -> (result: Result<Shape, ModelError>)
        ensures
            match result {
                Ok(shape) => dims_valid(dims@) && shape@ == dims@,
                Err(e) => !dims_valid(dims@) && e == shape_error(dims@),
            },
    {
        check_dims(dims)?;
        Ok(Shape { dims: copy_slice(dims) })
    }

    /// Build a shape from extents already known to be valid.
    pub(crate) fn from_valid(dims: Vec<usize>) -> (shape: Shape)
        requires
            dims_valid(dims@),
        ensures
            shape@ == dims@,
    {
        Shape { dims }
    }

    /// The extents.
    pub fn dims(&self) -> (dims: &[usize])
        ensures
            dims@ == self@,
            dims_valid(self@),
    {
        proof {
            use_type_invariant(self);
        }
        self.dims.as_slice()
    }

    /// The number of dimensions.
    pub fn num_dims(&self) -> (n: usize)
        ensures
            n == self@.len(),
            dims_valid(self@),
    {
        proof {
            use_type_invariant(self);
        }
        self.dims.len()
    }

    /// The number of elements.
    pub fn num_elements(&self) -> (n: usize)
        ensures
            n == seq_product(self@),
            dims_valid(self@),
    {
        proof {
            use_type_invariant(self);
        }
        let dims = &self.dims;
        let mut product: usize = 1;
        let mut i: usize = 0;
        assert(dims@.take(0) =~= Seq::<usize>::empty());
        while i < dims.len()
            invariant
                i <= dims@.len(),
                dims_valid(dims@),
                product as nat == seq_product(dims@.take(i as int)),
            decreases dims@.len() - i,
        {
            proof {
                lemma_product_take_step(dims@, i as int);
                lemma_product_prefix_le(dims@, i as int + 1);
            }
            product = product * dims[i];
            i = i + 1;
        }
        assert(dims@.take(dims@.len() as int) =~= dims@);
        product
    }

    /// Return a dimension after left-padding the shape with ones to
    /// `total_dims` dimensions.
    pub fn get_dim(&self, total_dims: usize, index: usize) -> (dim: usize)
        requires
            index < total_dims,
        ensures
            dim == padded_dim(self@, total_dims as int, index as int),
    {
        let dim_index = total_dims - index;
        let rank = self.dims.len();
        if dim_index <= rank {
            self.dims[rank - dim_index]
        } else {
            1
        }
    }
}

/// What a tensor is: its name, element type, extents and address.
pub struct TensorModel {
    pub id: Option<Seq<char>>,
    pub dtype: DataType,
    pub dims: Seq<usize>,
    pub addr: u64,
}

/// The packed storage size of a tensor.
pub open spec fn tensor_bytes(t: TensorModel) -> nat {
    packed_bytes(seq_product(t.dims), bits_of(t.dtype))
}

/// A tensor is valid when its shape is, its storage size fits in `usize` and
/// its bytes fit in the physical address space.
pub open spec fn tensor_valid(t: TensorModel) -> bool {
    &&& dims_valid(t.dims)
    &&& tensor_bytes(t) <= usize::MAX
    &&& t.addr + tensor_bytes(t) <= u64::MAX + 1
}

/// The error for a tensor with these properties.
pub open spec fn tensor_error(dims: Seq<usize>, dtype: DataType, addr: u64) -> ModelError {
    if !dims_valid(dims) {
        shape_error(dims)
    } else if packed_bytes(seq_product(dims), bits_of(dtype)) > usize::MAX {
        ModelError::StorageSizeOverflow
    } else {
        ModelError::AddressSpaceExceeded
    }
}

/// A tensor in memory.
#[derive(Debug)]
pub struct Tensor {
    id: Option<String>,
    dtype: DataType,
    shape: Shape,
    addr: u64,
    num_bytes: usize,
}

impl View for Tensor {
    type V = TensorModel;

    closed spec fn view(&self) -> TensorModel {
        TensorModel {
            id: match self.id {
                Some(s) => Some(s@),
                None => None,
            },
            dtype: self.dtype,
            dims: self.shape@,
            addr: self.addr,
        }
    }
}

/// The packed size of `num_elements` elements of `dtype`, if it fits in
/// `usize`.
pub fn checked_num_bytes(num_elements: usize, dtype: &DataType) -> (result: Result<usize, ModelError>)
    ensures
        match result {
            Ok(n) => n == packed_bytes(num_elements as nat, bits_of(*dtype)),
            Err(e) => packed_bytes(num_elements as nat, bits_of(*dtype)) > usize::MAX
                && e == ModelError::StorageSizeOverflow,
        },
{
    let bits = dtype.num_bits() as u128;
    let num_bits = (num_elements as u128) * bits;
    let num_bytes = (num_bits + 7) / 8;
    if num_bytes > usize::MAX as u128 {
        Err(ModelError::StorageSizeOverflow)
    } else {
        Ok(num_bytes as usize)
    }
}

/// Check that `num_bytes` bytes starting at `addr` fit in the physical
/// address space.
fn validate_address_range(addr: u64, num_bytes: usize) -> (result: Result<(), ModelError>)
    ensures
        match result {
            Ok(()) => num_bytes > 0 && addr + num_bytes <= u64::MAX + 1,
            Err(e) => (num_bytes == 0 || addr + num_bytes > u64::MAX + 1)
                && e == ModelError::AddressSpaceExceeded,
        },
{
    if num_bytes == 0 {
        return Err(ModelError::AddressSpaceExceeded);
    }
    let last_offset = (num_bytes - 1) as u64;
    match addr.checked_add(last_offset) {
        Some(_) => Ok(()),
        None => Err(ModelError::AddressSpaceExceeded),
    }
}

proof fn lemma_packed_positive(n: nat, bits: nat)
    requires
        n >= 1,
        bits >= 4,
    ensures
        packed_bytes(n, bits) >= 1,
{
    assert(n * bits >= 4) by (nonlinear_arith) requires n >= 1, bits >= 4;
}

impl Clone for Tensor {
    fn clone(&self) -> (copy: Self)
        ensures
            copy@ == self@,
    {
        proof {
            use_type_invariant(self);
        }
        let id = match &self.id {
            Some(s) => Some(s.clone()),
            None => None,
        };
        Tensor {
            id,
            dtype: self.dtype,
            shape: self.shape.clone(),
            addr: self.addr,
            num_bytes: self.num_bytes,
        }
    }
}

impl Tensor {
    #[verifier::type_invariant]
    spec fn tensor_invariant(self) -> bool {
        &&& tensor_valid(self@)
        &&& self.num_bytes == tensor_bytes(self@)
        &&& self.num_bytes >= 1
    }

    /// Create a tensor of the given extents, element type and address.
    pub fn new(dims: &[usize], dtype: &DataType, addr: u64) -> (result: Result<Tensor, ModelError>)
        ensures
            match result {
                Ok(t) => tensor_valid(t@) && t@ == (TensorModel {
                    id: None,
                    dtype: *dtype,
                    dims: dims@,
                    addr,
                }),
                Err(e) => !tensor_valid(TensorModel { id: None, dtype: *dtype, dims: dims@, addr })
                    && e == tensor_error(dims@, *dtype, addr),
            },
    {
        let shape = Shape::new(dims)?;
        Self::from_shape(shape, dtype, addr)
    }

    /// Create a tensor of the given shape, element type and address.
    pub fn from_shape(shape: Shape, dtype: &DataType, addr: u64) -> (result: Result<Tensor, ModelError>)
        ensures
            match result {
                Ok(t) => tensor_valid(t@) && t@ == (TensorModel {
                    id: None,
                    dtype: *dtype,
                    dims: shape@,
                    addr,
                }),
                Err(e) => !tensor_valid(TensorModel { id: None, dtype: *dtype, dims: shape@, addr })
                    && e == tensor_error(shape@, *dtype, addr),
            },
    {
        let num_elements = shape.num_elements();
        let num_bytes = checked_num_bytes(num_elements, dtype)?;
        proof {
            crate::util::lemma_product_positive(shape@);
            lemma_packed_positive(num_elements as nat, bits_of(*dtype));
        }
        validate_address_range(addr, num_bytes)?;
        Ok(Tensor { id: None, shape, dtype: *dtype, addr, num_bytes })
    }

    /// Give the tensor a name.
    pub fn with_id(self, id: String) -> (t: Tensor)
        ensures
            t@ == (TensorModel { id: Some(id@), ..self@ }),
    {
        proof {
            use_type_invariant(&self);
        }
        let mut t = self;
        t.id = Some(id);
        t
    }

    /// Set the tensor's name.
    pub fn set_id(&mut self, id: String)
        ensures
            final(self)@ == (TensorModel { id: Some(id@), ..old(self)@ }),
    {
        proof {
            use_type_invariant(&*self);
        }
        self.id = Some(id);
    }

    /// The tensor's name, if it has one.
    pub fn id(&self) -> (id: Option<&str>)
        ensures
            match id {
                Some(s) => self@.id == Some(s@),
                None => self@.id.is_none(),
            },
    {
        match &self.id {
            Some(s) => Some(s.as_str()),
            None => None,
        }
    }

    /// The packed size of the complete tensor.
    pub fn num_bytes(&self) -> (n: usize)
        ensures
            n == tensor_bytes(self@),
            tensor_valid(self@),
    {
        proof {
            use_type_invariant(self);
        }
        self.num_bytes
    }

    /// The element type.
    pub fn dtype(&self) -> (dtype: &DataType)
        ensures
            *dtype == self@.dtype,
    {
        &self.dtype
    }

    /// The address of the first byte.
    pub fn addr(&self) -> (addr: u64)
        ensures
            addr == self@.addr,
            tensor_valid(self@),
    {
        proof {
            use_type_invariant(self);
        }
        self.addr
    }

    /// Move the tensor, rejecting an address at which it would not fit in
    /// the physical address space.
    pub fn set_addr(&mut self, addr: u64) -> (result: Result<(), ModelError>)
        ensures
            result is Ok ==> final(self)@ == (TensorModel { addr, ..old(self)@ }),
            result is Err ==> final(self)@ == old(self)@,
            result is Err <==> !tensor_valid(TensorModel { addr, ..old(self)@ }),
            result is Err ==> result == Err::<(), ModelError>(ModelError::AddressSpaceExceeded),
    {
        proof {
            use_type_invariant(&*self);
        }
        match validate_address_range(addr, self.num_bytes) {
            Ok(()) => {
                self.addr = addr;
                Ok(())
            },
            Err(e) => Err(e),
        }
    }

    /// The shape.
    pub fn shape(&self) -> (shape: &Shape)
        ensures
            shape@ == self@.dims,
            tensor_valid(self@),
    {
        proof {
            use_type_invariant(self);
        }
        &self.shape
    }

    /// The number of dimensions.
    pub fn num_dims(&self) -> (n: usize)
        ensures
            n == self@.dims.len(),
    {
        self.shape.num_dims()
    }

    /// The number of elements.
    pub fn num_elements(&self) -> (n: usize)
        ensures
            n == seq_product(self@.dims),
    {
        self.shape.num_elements()
    }
}

/// Something with a shape: a shape itself, a tensor or a view.
pub trait HasShape {
    /// The extents of the shape.
    spec fn shape_dims(&self) -> Seq<usize>;

    /// The number of dimensions.
    fn num_dims(&self) -> (n: usize)
        ensures
            n == self.shape_dims().len();

    /// The number of elements.
    fn num_elements(&self) -> (n: usize)
        ensures
            n == seq_product(self.shape_dims());

    /// Return a dimension after left-padding the shape with ones.
    fn get_dim(&self, total_dims: usize, index: usize) -> (dim: usize)
        requires
            index < total_dims,
        ensures
            dim == padded_dim(self.shape_dims(), total_dims as int, index as int);

    /// The shape.
    fn shape(&self) -> (shape: &Shape)
        ensures
            shape@ == self.shape_dims(),
            dims_valid(shape@);
}

impl HasShape for Shape {
    open spec fn shape_dims(&self) -> Seq<usize> {
        self@
    }

    fn num_dims(&self) -> (n: usize) {
        Shape::num_dims(self)
    }

    fn num_elements(&self) -> (n: usize) {
        Shape::num_elements(self)
    }

    fn get_dim(&self, total_dims: usize, index: usize) -> (dim: usize) {
        Shape::get_dim(self, total_dims, index)
    }

    fn shape(&self) -> (shape: &Shape) {
        proof {
            use_type_invariant(self);
        }
        self
    }
}

impl HasShape for Tensor {
    open spec fn shape_dims(&self) -> Seq<usize> {
        self@.dims
    }

    fn num_dims(&self) -> (n: usize) {
        Tensor::num_dims(self)
    }

    fn num_elements(&self) -> (n: usize) {
        Tensor::num_elements(self)
    }

    fn get_dim(&self, total_dims: usize, index: usize) -> (dim: usize) {
        Tensor::shape(self).get_dim(total_dims, index)
    }

    fn shape(&self) -> (shape: &Shape) {
        let shape = Tensor::shape(self);
        proof {
            use_type_invariant(shape);
        }
        shape
    }
}

/// The character of a decimal digit.
pub open spec fn digit_char(d: nat) -> char {
    (('0' as nat) + d) as char
}

/// The decimal digits of a number, most significant first.
pub open spec fn decimal_digits(n: nat) -> Seq<char>
    decreases n,
{
    if n < 10 {
        seq![digit_char(n)]
    } else {
        decimal_digits(n / 10).push(digit_char(n % 10))
    }
}

/// Extents written in decimal and joined by `×`.
pub open spec fn shape_text(dims: Seq<usize>) -> Seq<char>
    decreases dims.len(),
{
    if dims.len() == 0 {
        Seq::empty()
    } else if dims.len() == 1 {
        decimal_digits(dims[0] as nat)
    } else {
        shape_text(dims.drop_last()) + seq!['×'] + decimal_digits(dims.last() as nat)
    }
}

/// The text of one decimal digit.
fn digit_str(d: usize) -> (text: &'static str)
    requires
        d < 10,
    ensures
        text@ == seq![digit_char(d as nat)],
{
    proof {
        reveal_strlit("0");
        reveal_strlit("1");
        reveal_strlit("2");
        reveal_strlit("3");
        reveal_strlit("4");
        reveal_strlit("5");
        reveal_strlit("6");
        reveal_strlit("7");
        reveal_strlit("8");
        reveal_strlit("9");
    }
    match d {
        0 => "0",
        1 => "1",
        2 => "2",
        3 => "3",
        4 => "4",
        5 => "5",
        6 => "6",
        7 => "7",
        8 => "8",
        _ => "9",
    }
}

/// The decimal text of `n`, most significant digit first.
fn decimal_string(n: usize) -> (text: String)
    ensures
        text@ == decimal_digits(n as nat),
    decreases n,
{
    if n < 10 {
        String::from_str(digit_str(n))
    } else {
        let mut text = decimal_string(n / 10);
        text.append(digit_str(n % 10));
        text
    }
}

/// The extents written out, joined by `×`.
pub fn shape_string(dims: &[usize]) -> (text: String)
    ensures
        text@ == shape_text(dims@),
{
    let mut text = String::new();
    let mut i: usize = 0;
    while i < dims.len()
        invariant
            i <= dims@.len(),
            text@ == shape_text(dims@.take(i as int)),
        decreases dims@.len() - i,
    {
        let digits = decimal_string(dims[i]);
        proof {
            assert(dims@.take(i + 1).drop_last() =~= dims@.take(i as int));
        }
        if i > 0 {
            let times = "×";
            proof {
                reveal_strlit("×");
            }
            text.append(times);
        } else {
            assert(dims@.take(1) =~= seq![dims@[0]]);
        }
        text.append(digits.as_str());
        i = i + 1;
    }
    assert(dims@.take(dims@.len() as int) =~= dims@);
    text
}

} // verus!
