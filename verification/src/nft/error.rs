use vstd::prelude::*;

verus! {

#[verifier::external_type_specification]
#[verifier::external_body]
pub struct ExIoError(std::io::Error);

/// What can go wrong while adding addresses to a set.
#[derive(Debug)]
pub enum NftError {
    /// The netlink socket could not be opened or used.
    SocketError(std::io::Error),
    /// The kernel refused the request with this error number.
    NetlinkError(i32),
    /// The table or set does not exist.
    SetNotFound,
    /// A message did not have the expected form.
    ProtocolError,
}

} // verus!
