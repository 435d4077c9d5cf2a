use vstd::prelude::*;

verus! {

/// The closed set of failures the credential store surfaces. Callers branch
/// on the kind, never on message text.
#[derive(Clone, Copy, Debug, PartialEq, Eq, Structural)]
pub enum StoreError {
    /// A container with the requested name already exists (setup ran twice).
    ContainerExists,
    /// The named container, or the specifically identified record, is absent.
    NotFound,
    /// The operating system denied creating or opening the container.
    PermissionDenied,
    /// Stored secret bytes were not valid text.
    DecodeFailure,
    /// Any other failure of the underlying secret store.
    BackendFailure,
}

impl StoreError {
    /// The human-readable message the command line prints for this error.
    pub open spec fn spec_message(self) -> Seq<char> {
        match self {
            StoreError::ContainerExists => "a container with this name already exists"@,
            StoreError::NotFound => "no such container or record"@,
            StoreError::PermissionDenied => "the system denied access to the secret store"@,
            StoreError::DecodeFailure => "the stored secret is not valid text"@,
            StoreError::BackendFailure => "the secret store reported a failure"@,
        }
    }

    /// Human-readable description of this error, for the caller to print.
    pub fn message(&self) -> (m: &'static str)
        ensures
            m@ == self.spec_message(),
    {
        match self {
            StoreError::ContainerExists => "a container with this name already exists",
            StoreError::NotFound => "no such container or record",
            StoreError::PermissionDenied => "the system denied access to the secret store",
            StoreError::DecodeFailure => "the stored secret is not valid text",
            StoreError::BackendFailure => "the secret store reported a failure",
        }
    }

    /// The error kind a given OS security-store status code stands for.
    pub open spec fn spec_from_os_status(code: i64) -> StoreError {
        if code == -25296 {
            StoreError::ContainerExists
        } else if code == -25294 || code == -25300 {
            StoreError::NotFound
        } else if code == -25293 {
            StoreError::PermissionDenied
        } else if code == -26275 {
            StoreError::DecodeFailure
        } else {
            StoreError::BackendFailure
        }
    }

    /// Classifies an OS security-store status code into an error kind:
    /// duplicate-keychain becomes `ContainerExists`; no-such-keychain and
    /// item-not-found become `NotFound`; authorization failure becomes
    /// `PermissionDenied`; undecodable data becomes `DecodeFailure`; every
    /// other status is the catch-all `BackendFailure`.
    pub fn from_os_status(code: i64) -> (e: StoreError)
        ensures
            e == StoreError::spec_from_os_status(code),
    {
        if code == -25296 {
            StoreError::ContainerExists
        } else if code == -25294 || code == -25300 {
            StoreError::NotFound
        } else if code == -25293 {
            StoreError::PermissionDenied
        } else if code == -26275 {
            StoreError::DecodeFailure
        } else {
            StoreError::BackendFailure
        }
    }
}

} // verus!
