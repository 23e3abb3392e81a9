//! The DNS data model: the message header, question and the code
//! enumerations.  The UDP responder and the record codec are not on the
//! proxy path; only the typed model and its constructors live here.

use vstd::prelude::*;

verus! {

/// A DNS echo responder declaration.
#[derive(Debug)]
pub struct Dns {
    pub name: String,
    pub host: String,
    pub port: u16,
}

impl Dns {
    /// A new responder declaration.
    pub fn new(name: String, host: String, port: u16) -> (r: Self)
        ensures
            r.name == name,
            r.host == host,
            r.port == port,
    {
        Dns { name, host, port }
    }
}

/// A DNS response code.
#[derive(Debug, Clone, Copy, PartialEq, Eq, Structural)]
pub enum ResultCode {
    NoError,
    FormErr,
    ServFail,
    NxDomain,
    NotImp,
    Refused,
}

impl ResultCode {
    /// The wire value of the code.
    pub open spec fn spec_num(&self) -> u8 {
        match self {
            ResultCode::NoError => 0,
            ResultCode::FormErr => 1,
            ResultCode::ServFail => 2,
            ResultCode::NxDomain => 3,
            ResultCode::NotImp => 4,
            ResultCode::Refused => 5,
        }
    }

    /// The code a wire value denotes; values above five are unassigned
    /// here.
    pub fn from_num(num: u8) -> (r: Option<Self>)
        ensures
            r is Some <==> num <= 5,
            r matches Some(c) ==> c.spec_num() == num,
    {
        match num {
            0 => Some(ResultCode::NoError),
            1 => Some(ResultCode::FormErr),
            2 => Some(ResultCode::ServFail),
            3 => Some(ResultCode::NxDomain),
            4 => Some(ResultCode::NotImp),
            5 => Some(ResultCode::Refused),
            _ => None,
        }
    }

    /// The wire value of the code.
    pub fn to_num(&self) -> (r: u8)
        ensures
            r == self.spec_num(),
    {
        match self {
            ResultCode::NoError => 0,
            ResultCode::FormErr => 1,
            ResultCode::ServFail => 2,
            ResultCode::NxDomain => 3,
            ResultCode::NotImp => 4,
            ResultCode::Refused => 5,
        }
    }
}

/// A DNS record type.
#[derive(Debug, Clone, Copy, PartialEq, Eq, Structural, Hash)]
pub enum RecordType {
    A,
    Ns,
    Cname,
    Mx,
    Txt,
    Aaaa,
}

impl RecordType {
    /// The wire value of the type.
    pub open spec fn spec_num(&self) -> u16 {
        match self {
            RecordType::A => 1,
            RecordType::Ns => 2,
            RecordType::Cname => 5,
            RecordType::Mx => 15,
            RecordType::Txt => 16,
            RecordType::Aaaa => 28,
        }
    }

    /// The type a wire value denotes.
    pub fn from_num(num: u16) -> (r: Option<Self>)
        ensures
            r is Some <==> (num == 1 || num == 2 || num == 5 || num == 15 || num == 16 || num
                == 28),
            r matches Some(t) ==> t.spec_num() == num,
    {
        match num {
            1 => Some(RecordType::A),
            2 => Some(RecordType::Ns),
            5 => Some(RecordType::Cname),
            15 => Some(RecordType::Mx),
            16 => Some(RecordType::Txt),
            28 => Some(RecordType::Aaaa),
            _ => None,
        }
    }

    /// The wire value of the type.
    pub fn to_num(&self) -> (r: u16)
        ensures
            r == self.spec_num(),
    {
        match self {
            RecordType::A => 1,
            RecordType::Ns => 2,
            RecordType::Cname => 5,
            RecordType::Mx => 15,
            RecordType::Txt => 16,
            RecordType::Aaaa => 28,
        }
    }
}

/// A DNS record class.
#[derive(Debug, Clone, Copy, PartialEq, Eq, Structural)]
pub enum RecordClass {
    In,
    Cs,
    Ch,
    Hs,
}

impl RecordClass {
    /// The wire value of the class.
    pub open spec fn spec_num(&self) -> u16 {
        match self {
            RecordClass::In => 1,
            RecordClass::Cs => 2,
            RecordClass::Ch => 3,
            RecordClass::Hs => 4,
        }
    }

    /// The class a wire value denotes.
    pub fn from_num(num: u16) -> (r: Option<Self>)
        ensures
            r is Some <==> 1 <= num <= 4,
            r matches Some(c) ==> c.spec_num() == num,
    {
        match num {
            1 => Some(RecordClass::In),
            2 => Some(RecordClass::Cs),
            3 => Some(RecordClass::Ch),
            4 => Some(RecordClass::Hs),
            _ => None,
        }
    }

    /// The wire value of the class.
    pub fn to_num(&self) -> (r: u16)
        ensures
            r == self.spec_num(),
    {
        match self {
            RecordClass::In => 1,
            RecordClass::Cs => 2,
            RecordClass::Ch => 3,
            RecordClass::Hs => 4,
        }
    }
}

/// The twelve-byte DNS message header.
#[derive(Debug, Clone, Copy)]
pub struct DnsHeader {
    pub id: u16,
    pub recursion_desired: bool,
    pub truncated_message: bool,
    pub authoritative_answer: bool,
    pub opcode: u8,
    pub response: bool,
    pub rescode: ResultCode,
    pub checking_disabled: bool,
    pub authed_data: bool,
    pub z: bool,
    pub recursion_available: bool,
    pub questions: u16,
    pub answers: u16,
    pub authoritative_entries: u16,
    pub additional_entries: u16,
}

impl DnsHeader {
    /// A header with every flag clear and every count zero.
    pub fn new() -> (r: Self)
        ensures
            r.id == 0,
            !r.recursion_desired,
            !r.truncated_message,
            !r.authoritative_answer,
            r.opcode == 0,
            !r.response,
            r.rescode == ResultCode::NoError,
            !r.checking_disabled,
            !r.authed_data,
            !r.z,
            !r.recursion_available,
            r.questions == 0,
            r.answers == 0,
            r.authoritative_entries == 0,
            r.additional_entries == 0,
    {
        DnsHeader {
            id: 0,
            recursion_desired: false,
            truncated_message: false,
            authoritative_answer: false,
            opcode: 0,
            response: false,
            rescode: ResultCode::NoError,
            checking_disabled: false,
            authed_data: false,
            z: false,
            recursion_available: false,
            questions: 0,
            answers: 0,
            authoritative_entries: 0,
            additional_entries: 0,
        }
    }
}

/// One entry of the question section.
#[derive(Debug)]
pub struct DnsQuestion {
    pub name: String,
    pub qtype: RecordType,
    pub qclass: RecordClass,
}

impl DnsQuestion {
    /// A question for `name` of the given type, in the Internet class.
    pub fn new(name: String, qtype: RecordType) -> (r: Self)
        ensures
            r.name == name,
            r.qtype == qtype,
            r.qclass == RecordClass::In,
    {
        DnsQuestion { name, qtype, qclass: RecordClass::In }
    }
}

} // verus!
