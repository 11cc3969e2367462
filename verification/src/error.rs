use vstd::prelude::*;

verus! {

/// Everything that can go wrong inside the library.
#[derive(Debug)]
pub enum HypercubeError {
    /// The header text could not be understood.
    Json(String),
    InvalidHeader(String),
    InvalidBlockSize(usize),
    InvalidCubeSize(usize),
    InvalidDimension(usize),
    InvalidMacBits(usize),
    PartitionNotFound(usize),
    PartitionExists(usize),
    FileFull(usize),
    DataTooLarge { data_size: usize, max_size: usize },
    PayloadTooLarge(usize),
    InvalidCube(usize),
    MacVerificationFailed(usize),
    CompressionError(String),
    DecompressionError(String),
    InvalidFormat(String),
    UnsupportedAlgorithm(String),
    IntegrityError(String),
    SecretRequired,
}

/// The mathematical value of an error: the same variants, with every message
/// as a sequence of characters.
pub ghost enum ErrorView {
    Json(Seq<char>),
    InvalidHeader(Seq<char>),
    InvalidBlockSize(usize),
    InvalidCubeSize(usize),
    InvalidDimension(usize),
    InvalidMacBits(usize),
    PartitionNotFound(usize),
    PartitionExists(usize),
    FileFull(usize),
    DataTooLarge { data_size: usize, max_size: usize },
    PayloadTooLarge(usize),
    InvalidCube(usize),
    MacVerificationFailed(usize),
    CompressionError(Seq<char>),
    DecompressionError(Seq<char>),
    InvalidFormat(Seq<char>),
    UnsupportedAlgorithm(Seq<char>),
    IntegrityError(Seq<char>),
    SecretRequired,
}

impl View for HypercubeError {
    type V = ErrorView;

    open spec fn view(&self) -> ErrorView {
        match *self {
            HypercubeError::Json(m) => ErrorView::Json(m@),
            HypercubeError::InvalidHeader(m) => ErrorView::InvalidHeader(m@),
            HypercubeError::InvalidBlockSize(n) => ErrorView::InvalidBlockSize(n),
            HypercubeError::InvalidCubeSize(n) => ErrorView::InvalidCubeSize(n),
            HypercubeError::InvalidDimension(n) => ErrorView::InvalidDimension(n),
            HypercubeError::InvalidMacBits(n) => ErrorView::InvalidMacBits(n),
            HypercubeError::PartitionNotFound(n) => ErrorView::PartitionNotFound(n),
            HypercubeError::PartitionExists(n) => ErrorView::PartitionExists(n),
            HypercubeError::FileFull(n) => ErrorView::FileFull(n),
            HypercubeError::DataTooLarge { data_size, max_size } => ErrorView::DataTooLarge {
                data_size,
                max_size,
            },
            HypercubeError::PayloadTooLarge(n) => ErrorView::PayloadTooLarge(n),
            HypercubeError::InvalidCube(n) => ErrorView::InvalidCube(n),
            HypercubeError::MacVerificationFailed(n) => ErrorView::MacVerificationFailed(n),
            HypercubeError::CompressionError(m) => ErrorView::CompressionError(m@),
            HypercubeError::DecompressionError(m) => ErrorView::DecompressionError(m@),
            HypercubeError::InvalidFormat(m) => ErrorView::InvalidFormat(m@),
            HypercubeError::UnsupportedAlgorithm(m) => ErrorView::UnsupportedAlgorithm(m@),
            HypercubeError::IntegrityError(m) => ErrorView::IntegrityError(m@),
            HypercubeError::SecretRequired => ErrorView::SecretRequired,
        }
    }
}

} // verus!
