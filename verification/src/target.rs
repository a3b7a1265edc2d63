//! Description of the kind of DPU hardware a cluster runs on, and the status
//! codes its control interface answers with.

use crate::buffers::filled;
use vstd::prelude::*;

verus! {

/// Status code answered by every call of the control interface.
#[derive(Clone, Copy, Debug, PartialEq, Eq, Structural)]
pub enum CniStatus {
    Success,
    AllocationError,
    InvalidDpuTypeError,
    InvalidSliceIdError,
    InvalidMemberIdError,
    InvalidThreadIdError,
    InvalidNotifyIdError,
    InvalidWramAccessError,
    InvalidIramAccessError,
    InvalidMramAccessError,
    InvalidProfileError,
    CorruptedMemoryError,
    DriverError,
    SystemError,
    NotImplementedError,
    InternalError,
}

/// A status code other than `Success`, seen as an error.
#[derive(Clone, Copy, Debug, PartialEq, Eq, Structural)]
pub struct DpuError(pub CniStatus);

/// Turns a status code into a result: `Success` is `Ok`, every other code is
/// the error that carries it.
pub fn wrap_cni_status(status: CniStatus) -> (r: Result<(), DpuError>)
    ensures
        status == CniStatus::Success ==> r == Ok::<(), DpuError>(()),
        status != CniStatus::Success ==> r == Err::<(), DpuError>(DpuError(status)),
{
    match status {
        CniStatus::Success => Ok(()),
        err => Err(DpuError(err)),
    }
}

/// The registers and flags of one DPU, as read out after a fault.
#[derive(Debug)]
pub struct DpuDebugContext {
    /// The work registers of every thread, thread by thread.
    pub registers: Vec<u32>,
    /// The program counter of every thread.
    pub pcs: Vec<u16>,
    pub atomic_register: Vec<bool>,
    pub zero_flags: Vec<bool>,
    pub carry_flags: Vec<bool>,
    /// The scheduling position of every thread; `0xFF` for a thread that is
    /// not scheduled.
    pub scheduling: Vec<u8>,
}

impl DpuDebugContext {
    /// An empty context for a DPU with `nr_of_threads` threads of
    /// `nr_of_registers` work registers each and `nr_of_atomic_bits` atomic
    /// bits: every register, counter and flag is cleared and no thread is
    /// scheduled.
    pub fn new(nr_of_threads: u8, nr_of_registers: u8, nr_of_atomic_bits: u32) -> (context:
        DpuDebugContext)
        ensures
            context.registers@ == Seq::new(
                (nr_of_threads as nat) * (nr_of_registers as nat),
                |i: int| 0u32,
            ),
            context.pcs@ == Seq::new(nr_of_threads as nat, |i: int| 0u16),
            context.atomic_register@ == Seq::new(nr_of_atomic_bits as nat, |i: int| false),
            context.zero_flags@ == Seq::new(nr_of_threads as nat, |i: int| false),
            context.carry_flags@ == Seq::new(nr_of_threads as nat, |i: int| false),
            context.scheduling@ == Seq::new(nr_of_threads as nat, |i: int| 0xFFu8),
    {
        assert((nr_of_threads as nat) * (nr_of_registers as nat) <= 255 * 255) by (nonlinear_arith)
            requires
                nr_of_threads <= 255,
                nr_of_registers <= 255,
        ;
        let total_nr_of_registers = (nr_of_threads as usize) * (nr_of_registers as usize);
        DpuDebugContext {
            registers: filled(0u32, total_nr_of_registers),
            pcs: filled(0u16, nr_of_threads as usize),
            atomic_register: filled(false, nr_of_atomic_bits as usize),
            zero_flags: filled(false, nr_of_threads as usize),
            carry_flags: filled(false, nr_of_threads as usize),
            scheduling: filled(0xFFu8, nr_of_threads as usize),
        }
    }
}

/// Identification of a DPU design.
#[derive(Clone, Copy, Debug, PartialEq, Eq, Structural)]
pub struct DpuSignature {
    pub config_id: u32,
    pub chip_id: u32,
}

/// Timing parameters of the control interface.
#[derive(Clone, Copy, Debug, PartialEq, Eq, Structural)]
pub struct DpuStaticConfiguration {
    pub cmd_duration: u8,
    pub cmd_sampling: u8,
    pub res_duration: u8,
    pub res_sampling: u8,
    pub reset_wait_duration: u8,
    pub std_temperature: u8,
    pub clock_division: u8,
}

/// Shape of one rank: how many slices it has and how many DPUs each holds.
#[derive(Clone, Copy, Debug, PartialEq, Eq, Structural)]
pub struct DpuTopology {
    pub nr_of_control_interfaces: u8,
    pub nr_of_dpus_per_control_interface: u8,
}

/// Sizes of the thread and register files of a DPU.
#[derive(Clone, Copy, Debug, PartialEq, Eq, Structural)]
pub struct DpuInfo {
    pub nr_of_threads: u8,
    pub nr_of_atomic_bits: u32,
    pub nr_of_notify_bits: u32,
    pub nr_of_work_registers_per_thread: u8,
}

/// The kind of target that runs the DPU programs.
#[derive(Clone, Copy, Debug, PartialEq, Eq, Structural)]
pub enum DpuType {
    FunctionalSimulator,
    CycleAccurateSimulator,
    Modelsim,
    Hardware,
    BackupSpi,
}

impl Default for DpuType {
    fn default() -> (t: DpuType)
        ensures
            t == DpuType::Hardware,
    {
        DpuType::Hardware
    }
}

/// Named properties of a target, each name once, in the order in which the
/// names were first set.
#[derive(Clone, Debug)]
pub struct DpuProfile {
    pub properties: Vec<(String, String)>,
}

/// A target: its kind and its profile.
#[derive(Clone, Debug)]
pub struct DpuTarget {
    pub dpu_type: DpuType,
    pub profile: DpuProfile,
}

/// The properties as pairs of texts.
pub open spec fn texts(properties: Seq<(String, String)>) -> Seq<(Seq<char>, Seq<char>)> {
    Seq::new(properties.len(), |i: int| (properties[i].0@, properties[i].1@))
}

/// The decimal digit for `d`.
pub open spec fn digit(d: nat) -> char {
    if d == 0 {
        '0'
    } else if d == 1 {
        '1'
    } else if d == 2 {
        '2'
    } else if d == 3 {
        '3'
    } else if d == 4 {
        '4'
    } else if d == 5 {
        '5'
    } else if d == 6 {
        '6'
    } else if d == 7 {
        '7'
    } else if d == 8 {
        '8'
    } else {
        '9'
    }
}

/// The decimal notation of `n`, without leading zeros.
pub open spec fn decimal(n: nat) -> Seq<char>
    decreases n,
{
    if n < 10 {
        seq![digit(n)]
    } else {
        decimal(n / 10).push(digit(n % 10))
    }
}

/// The first `n` of the `properties` as one text: each property as its name,
/// `=` and its value, and `&` between two properties.
pub open spec fn profile_text(properties: Seq<(Seq<char>, Seq<char>)>, n: int) -> Seq<char>
    decreases n,
{
    if n <= 0 {
        Seq::empty()
    } else if n == 1 {
        properties[0].0 + seq!['='] + properties[0].1
    } else {
        profile_text(properties, n - 1) + seq!['&'] + properties[n - 1].0 + seq!['=']
            + properties[n - 1].1
    }
}

/// `properties` with `name` set to `value`: in place of its old value where
/// the name is set already, else as a new last property.
pub open spec fn with_property(
    properties: Seq<(Seq<char>, Seq<char>)>,
    name: Seq<char>,
    value: Seq<char>,
) -> Seq<(Seq<char>, Seq<char>)>
    decreases properties.len(),
{
    if properties.len() == 0 {
        seq![(name, value)]
    } else if properties[0].0 == name {
        properties.update(0, (name, value))
    } else {
        seq![properties[0]] + with_property(properties.skip(1), name, value)
    }
}

/// The text of one decimal digit.
fn digit_text(d: u8) -> (text: &'static str)
    requires
        d < 10,
    ensures
        text@ == seq![digit(d as nat)],
{
    proof {
        reveal_strlit("0");
        reveal_strlit("1");
        reveal_strlit("2");
        reveal_strlit("3");
        reveal_strlit("4");
        reveal_strlit("5");
        reveal_strlit("6");
        reveal_strlit("7");
        reveal_strlit("8");
        reveal_strlit("9");
    }
    let text = if d == 0 {
        "0"
    } else if d == 1 {
        "1"
    } else if d == 2 {
        "2"
    } else if d == 3 {
        "3"
    } else if d == 4 {
        "4"
    } else if d == 5 {
        "5"
    } else if d == 6 {
        "6"
    } else if d == 7 {
        "7"
    } else if d == 8 {
        "8"
    } else {
        "9"
    };
    assert(text@ =~= seq![digit(d as nat)]);
    text
}

/// The decimal notation of `nr`.
pub fn decimal_text(nr: u8) -> (text: String)
    ensures
        text@ == decimal(nr as nat),
{
    let mut text = String::new();
    if nr >= 100 {
        text.append(digit_text(nr / 100));
        text.append(digit_text((nr / 10) % 10));
        text.append(digit_text(nr % 10));
        proof {
            let n = nr as nat;
            assert(decimal(n / 10 / 10) =~= seq![digit(n / 100)]);
            assert(decimal(n / 10) =~= decimal(n / 10 / 10).push(digit((n / 10) % 10)));
            assert(text@ =~= decimal(n));
        }
    } else if nr >= 10 {
        text.append(digit_text(nr / 10));
        text.append(digit_text(nr % 10));
        proof {
            let n = nr as nat;
            assert(decimal(n / 10) =~= seq![digit(n / 10)]);
            assert(text@ =~= decimal(n));
        }
    } else {
        text.append(digit_text(nr));
        proof {
            assert(text@ =~= decimal(nr as nat));
        }
    }
    text
}

impl DpuTarget {
    pub fn for_functional_simulator() -> (target: DpuTarget)
        ensures
            target.dpu_type == DpuType::FunctionalSimulator,
            target.profile.properties@.len() == 0,
    {
        DpuTarget {
            dpu_type: DpuType::FunctionalSimulator,
            profile: DpuProfile { properties: Vec::new() },
        }
    }

    pub fn for_hardware_implementation() -> (target: DpuTarget)
        ensures
            target.dpu_type == DpuType::Hardware,
            target.profile.properties@.len() == 0,
    {
        DpuTarget { dpu_type: DpuType::Hardware, profile: DpuProfile { properties: Vec::new() } }
    }

    /// The target with the property `nrDpusPerCI` set to the decimal notation
    /// of `nr`.
    pub fn nr_of_dpus_per_control_interface(self, nr: u8) -> (target: DpuTarget)
        ensures
            target.dpu_type == self.dpu_type,
            texts(target.profile.properties@) == with_property(
                texts(self.profile.properties@),
                "nrDpusPerCI"@,
                decimal(nr as nat),
            ),
    {
        let mut target = self;
        let value = decimal_text(nr);
        let probe = String::from_str("nrDpusPerCI");
        let mut i: usize = 0;
        let ghost before = texts(target.profile.properties@);
        let ghost name = "nrDpusPerCI"@;
        proof {
            assert(before.subrange(0, before.len() as int) =~= before);
            assert(before.subrange(0, 0) + with_property(before, name, value@) =~= with_property(
                before,
                name,
                value@,
            ));
        }
        while i < target.profile.properties.len()
            invariant
                i <= target.profile.properties@.len(),
                target.dpu_type == self.dpu_type,
                texts(target.profile.properties@) == before,
                before == texts(self.profile.properties@),
                name == "nrDpusPerCI"@,
                probe@ == name,
                value@ == decimal(nr as nat),
                forall|j: int| 0 <= j < i ==> (#[trigger] before[j]).0 != name,
                with_property(before, name, value@) == before.subrange(0, i as int) + with_property(
                    before.subrange(i as int, before.len() as int),
                    name,
                    value@,
                ),
            decreases target.profile.properties.len() - i,
        {
            let ghost rest = before.subrange(i as int, before.len() as int);
            proof {
                assert(rest[0] == before[i as int]);
                assert(rest.skip(1) =~= before.subrange(i + 1, before.len() as int));
                assert(before.subrange(0, i as int) + seq![rest[0]] =~= before.subrange(0, i + 1));
            }
            if target.profile.properties[i].0 == probe {
                let key = String::from_str("nrDpusPerCI");
                target.profile.properties[i] = (key, value);
                proof {
                    assert(texts(target.profile.properties@) =~= before.subrange(0, i as int)
                        + rest.update(0, (name, decimal(nr as nat))));
                }
                return target;
            }
            i += 1;
        }
        let key = String::from_str("nrDpusPerCI");
        target.profile.properties.push((key, value));
        proof {
            assert(before.subrange(before.len() as int, before.len() as int) =~= Seq::<
                (Seq<char>, Seq<char>),
            >::empty());
            assert(before.subrange(0, before.len() as int) =~= before);
            assert(texts(target.profile.properties@) =~= before + seq![(name, decimal(nr as nat))]);
        }
        target
    }

    /// The kind of the target and its profile as one text.
    pub fn to_cni_args(&self) -> (args: (DpuType, String))
        ensures
            args.0 == self.dpu_type,
            args.1@ == profile_text(
                texts(self.profile.properties@),
                self.profile.properties@.len() as int,
            ),
    {
        let mut text = String::new();
        let mut i: usize = 0;
        let ghost properties = texts(self.profile.properties@);
        proof {
            reveal_strlit("&");
            reveal_strlit("=");
        }
        while i < self.profile.properties.len()
            invariant
                i <= self.profile.properties@.len(),
                properties == texts(self.profile.properties@),
                text@ == profile_text(properties, i as int),
                "&"@ == seq!['&'],
                "="@ == seq!['='],
            decreases self.profile.properties.len() - i,
        {
            let ghost so_far = text@;
            if i > 0 {
                text.append("&");
            }
            text.append(self.profile.properties[i].0.as_str());
            text.append("=");
            text.append(self.profile.properties[i].1.as_str());
            proof {
                assert(properties[i as int] == (
                    self.profile.properties@[i as int].0@,
                    self.profile.properties@[i as int].1@,
                ));
                if i == 0 {
                    assert(so_far =~= Seq::<char>::empty());
                    assert(text@ =~= profile_text(properties, 1));
                } else {
                    assert(text@ =~= profile_text(properties, i + 1));
                }
            }
            i += 1;
        }
        (self.dpu_type, text)
    }
}

} // verus!
