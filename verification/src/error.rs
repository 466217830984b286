//! The errors of the service as a whole.
use crate::embedding::{EmbedError, EmbedFault};
use crate::store::{StoreError, StoreFault};
use crate::text::joined;
use crate::vector_index::{VectorError, VectorFault};
use crate::writer::WriterError;
use vstd::prelude::*;

verus! {

/// What goes wrong with a request.
#[derive(Debug)]
pub enum ServiceError {
    /// Embedding failed.
    Embed(EmbedError),
    /// The vector index refused something.
    Vector(VectorError),
    /// The store refused something.
    Store(StoreError),
    /// The writer is gone.
    Writer(WriterError),
    /// The request is not as it should be.
    BadRequest(String),
    /// Something else.
    Internal(String),
}

/// A `ServiceError` with its texts as sequences of characters.
pub enum ServiceFault {
    Embed(EmbedFault),
    Vector(VectorFault),
    Store(StoreFault),
    Writer(WriterError),
    BadRequest(Seq<char>),
    Internal(Seq<char>),
}

impl View for ServiceError {
    type V = ServiceFault;

    open spec fn view(&self) -> ServiceFault {
        match *self {
            ServiceError::Embed(e) => ServiceFault::Embed(e@),
            ServiceError::Vector(e) => ServiceFault::Vector(e@),
            ServiceError::Store(e) => ServiceFault::Store(e@),
            ServiceError::Writer(e) => ServiceFault::Writer(e),
            ServiceError::BadRequest(m) => ServiceFault::BadRequest(m@),
            ServiceError::Internal(m) => ServiceFault::Internal(m@),
        }
    }
}

impl ServiceFault {
    /// The text shown for the error.
    pub open spec fn message(self) -> Seq<char> {
        match self {
            ServiceFault::Embed(f) => "嵌入服务错误: "@ + f.message(),
            ServiceFault::Vector(f) => "向量索引错误: "@ + f.message(),
            ServiceFault::Store(f) => "存储错误: "@ + f.message(),
            ServiceFault::Writer(e) => "写者线程错误: "@ + e.text(),
            ServiceFault::BadRequest(m) => "参数错误: "@ + m,
            ServiceFault::Internal(m) => "内部错误: "@ + m,
        }
    }
}

impl ServiceError {
    /// The text shown for the error.
    pub fn message(&self) -> (s: String)
        ensures
            s@ == self@.message(),
    {
        match self {
            ServiceError::Embed(e) => joined("嵌入服务错误: ", e.message().as_str()),
            ServiceError::Vector(e) => joined("向量索引错误: ", e.message().as_str()),
            ServiceError::Store(e) => joined("存储错误: ", e.message().as_str()),
            ServiceError::Writer(e) => joined("写者线程错误: ", e.message().as_str()),
            ServiceError::BadRequest(m) => joined("参数错误: ", m.as_str()),
            ServiceError::Internal(m) => joined("内部错误: ", m.as_str()),
        }
    }
}

/// The texts of the errors.
pub proof fn law_service_error_texts(m: Seq<char>, e: EmbedFault, v: VectorFault, s: StoreFault)
    ensures
        ServiceFault::Embed(e).message() == "嵌入服务错误: "@ + e.message(),
        ServiceFault::Vector(v).message() == "向量索引错误: "@ + v.message(),
        ServiceFault::Store(s).message() == "存储错误: "@ + s.message(),
        ServiceFault::BadRequest(m).message() == "参数错误: "@ + m,
        ServiceFault::Internal(m).message() == "内部错误: "@ + m,
{
}

/// Errors are seen as they are.
pub proof fn law_service_errors_seen(
    m: String,
    e: EmbedError,
    v: VectorError,
    s: StoreError,
    w: WriterError,
)
    ensures
        ServiceError::Embed(e)@ == ServiceFault::Embed(e@),
        ServiceError::Vector(v)@ == ServiceFault::Vector(v@),
        ServiceError::Store(s)@ == ServiceFault::Store(s@),
        ServiceError::Writer(w)@ == ServiceFault::Writer(w),
        ServiceError::BadRequest(m)@ == ServiceFault::BadRequest(m@),
        ServiceError::Internal(m)@ == ServiceFault::Internal(m@),
        ServiceFault::Writer(w).message() == "写者线程错误: "@ + w.text(),
{
}

} // verus!
