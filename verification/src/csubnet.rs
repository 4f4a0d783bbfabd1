//! The EDNS0 Client Subnet option (ECS): an option carried in the OPT
//! pseudo-record that conveys the querying client's address to the server.
//!
//! The full address is always embedded: the source prefix is the whole
//! address width and the scope prefix is emitted as zero, leaving scope
//! policy to the server.

use vstd::prelude::*;

use crate::errors::Error;
use crate::wire::{enc_u16, push_u16};

verus! {

/// Model of an IP address: which family it belongs to, and its octets.
#[verifier::ext_equal]
pub ghost enum IpAddressModel {
    V4(Seq<u8>),
    V6(Seq<u8>),
}

/// An IP address held as its raw octets, in network byte order.
#[derive(Debug, Clone, Copy, PartialEq, Eq)]
pub enum IpAddress {
    /// A 4-octet IPv4 address.
    V4([u8; 4]),
    /// A 16-octet IPv6 address.
    V6([u8; 16]),
}

impl DeepView for IpAddress {
    type V = IpAddressModel;

    open spec fn deep_view(&self) -> IpAddressModel {
        match self {
            IpAddress::V4(o) => IpAddressModel::V4(o.deep_view()),
            IpAddress::V6(o) => IpAddressModel::V6(o.deep_view()),
        }
    }
}

/// An address model with the octet count its family demands. Every
/// `IpAddress` value satisfies this; the model alone does not force it.
pub open spec fn valid_address(a: IpAddressModel) -> bool {
    match a {
        IpAddressModel::V4(o) => o.len() == 4,
        IpAddressModel::V6(o) => o.len() == 16,
    }
}

/// The payload of a Client Subnet option: family, source prefix (the full
/// address width), scope prefix (zero), and the address octets.
pub open spec fn csubnet_payload(a: IpAddressModel) -> Seq<u8> {
    match a {
        IpAddressModel::V4(o) => enc_u16(1) + seq![32u8, 0u8] + o,
        IpAddressModel::V6(o) => enc_u16(2) + seq![128u8, 0u8] + o,
    }
}

/// The wire bytes of a Client Subnet option: option code, option length,
/// then the payload.
pub open spec fn csubnet_bytes(a: IpAddressModel) -> Seq<u8> {
    match a {
        IpAddressModel::V4(o) => enc_u16(8) + enc_u16(8) + enc_u16(1) + seq![32u8, 0u8] + o,
        IpAddressModel::V6(o) => enc_u16(8) + enc_u16(20) + enc_u16(2) + seq![128u8, 0u8] + o,
    }
}

/// The option bytes are the code, the payload's length, and the payload.
pub proof fn lemma_csubnet_bytes_shape(a: IpAddressModel)
    requires
        valid_address(a),
    ensures
        csubnet_payload(a).len() <= 0xffff,
        csubnet_bytes(a) == enc_u16(8) + enc_u16(csubnet_payload(a).len() as u16)
            + csubnet_payload(a),
{
    match a {
        IpAddressModel::V4(o) => {
            assert(csubnet_payload(a).len() == 8);
            assert(csubnet_bytes(a) =~= enc_u16(8) + enc_u16(csubnet_payload(a).len() as u16)
                + csubnet_payload(a));
        },
        IpAddressModel::V6(o) => {
            assert(csubnet_payload(a).len() == 20);
            assert(csubnet_bytes(a) =~= enc_u16(8) + enc_u16(csubnet_payload(a).len() as u16)
                + csubnet_payload(a));
        },
    }
}

/// The Client Subnet option's payload: the client's address.
#[derive(Debug, Clone, Copy, PartialEq, Eq)]
pub struct CSUBNET {
    /// The address embedded in the option.
    pub address: IpAddress,
}

impl DeepView for CSUBNET {
    type V = IpAddressModel;

    open spec fn deep_view(&self) -> IpAddressModel {
        self.address.deep_view()
    }
}

impl CSUBNET {
    /// The option code of the Client Subnet option in an OPT record.
    pub const ECS_CODE: u16 = 8;

    /// The address family number for IPv4.
    pub const ADDRESS_FAMILY_NUMBER_IPV4: u16 = 1;

    /// The address family number for IPv6.
    pub const ADDRESS_FAMILY_NUMBER_IPV6: u16 = 2;

    /// Serialises this option into its wire bytes: always succeeds, and
    /// returns exactly the bytes `csubnet_bytes` describes.
    pub fn to_bytes(&self) -> (r: Result<Vec<u8>, Error>)
        ensures
            r matches Ok(b) && b@ == csubnet_bytes(self.deep_view()),
    {
        let mut bytes: Vec<u8> = Vec::new();
        push_u16(&mut bytes, CSUBNET::ECS_CODE);
        match &self.address {
            IpAddress::V6(octets) => {
                push_u16(&mut bytes, 20);
                push_u16(&mut bytes, CSUBNET::ADDRESS_FAMILY_NUMBER_IPV6);
                bytes.push(128);
                bytes.push(0);
                bytes.extend_from_slice(octets.as_slice());
                proof {
                    assert(octets.deep_view() =~= octets@);
                    assert(bytes@ =~= csubnet_bytes(self.deep_view()));
                }
            },
            IpAddress::V4(octets) => {
                push_u16(&mut bytes, 8);
                push_u16(&mut bytes, CSUBNET::ADDRESS_FAMILY_NUMBER_IPV4);
                bytes.push(32);
                bytes.push(0);
                bytes.extend_from_slice(octets.as_slice());
                proof {
                    assert(octets.deep_view() =~= octets@);
                    assert(bytes@ =~= csubnet_bytes(self.deep_view()));
                }
            },
        }
        Ok(bytes)
    }
}

} // verus!
