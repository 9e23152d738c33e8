use vstd::prelude::*;

verus! {

/// What a system call answers when its number is unknown.
pub const UNKNOWN_SYSCALL: u64 = 0xFFFF_FFFF_FFFF_FFFF;

/// The system calls that hand the kernel a buffer of user memory.
#[derive(Clone, Copy, PartialEq, Eq, Structural)]
pub enum BufferCall {
    ListDir,
    CreateFile,
    DeleteFile,
    Rename,
    CreateDir,
    Move,
    RegistryList,
    RegistrySet,
    ReadFile,
    WriteFile,
    PlayFile,
}

/// A system call, with the arguments it reads.
#[derive(Clone, Copy, PartialEq, Eq, Structural)]
pub enum Syscall {
    /// Print the `len` bytes of text at `ptr`.
    Print { ptr: u64, len: u64 },
    /// End the program.
    Exit,
    /// Store the framebuffer's address, size and stride and the back buffer's address at `ptr`.
    Framebuffer { ptr: u64 },
    /// Poll the input devices and store the next input event at `ptr`.
    PollEvent { ptr: u64 },
    /// Store the time and date at `ptr`.
    Time { ptr: u64 },
    /// Power off, or restart when `reboot`.
    Power { reboot: bool },
    /// One of the cached settings: 0 desktop colour, 1 taskbar colour, 2 user rights.
    Setting { which: u64 },
    /// Set the desktop colour.
    SetDesktopColor { color: u32 },
    /// A call on the buffer of `len` bytes at `ptr`.
    Buffer { call: BufferCall, ptr: u64, len: u64 },
    /// Play the start-up sound (which does nothing).
    PlayStartup,
    /// Stop the sound that plays.
    StopSound,
    /// Fill the system information block at `ptr`.
    SysInfo { ptr: u64 },
    /// A number no call has.
    Unknown,
}

/// The buffer call numbered `num`, for the numbers 8 to 17 and 19.
pub open spec fn buffer_call_spec(num: u64) -> Option<BufferCall> {
    if num == 8 {
        Some(BufferCall::ListDir)
    } else if num == 9 {
        Some(BufferCall::CreateFile)
    } else if num == 10 {
        Some(BufferCall::DeleteFile)
    } else if num == 11 {
        Some(BufferCall::Rename)
    } else if num == 12 {
        Some(BufferCall::CreateDir)
    } else if num == 13 {
        Some(BufferCall::Move)
    } else if num == 14 {
        Some(BufferCall::RegistryList)
    } else if num == 15 {
        Some(BufferCall::RegistrySet)
    } else if num == 16 {
        Some(BufferCall::ReadFile)
    } else if num == 17 {
        Some(BufferCall::WriteFile)
    } else if num == 19 {
        Some(BufferCall::PlayFile)
    } else {
        None
    }
}

/// The system call numbered `num` with first and second arguments `arg1` and `arg2`: 0
/// print, 1 exit, 2 framebuffer, 3 poll event, 4 time, 5 power (off when `arg1` is 0), 6
/// setting, 7 desktop colour (`arg1` cut to 32 bits), the buffer calls (see
/// `buffer_call_spec`), 18 start-up sound, 20 stop sound, 21 system information; any other
/// number is unknown.
pub open spec fn decode_spec(num: u64, arg1: u64, arg2: u64) -> Syscall {
    if num == 0 {
        Syscall::Print { ptr: arg1, len: arg2 }
    } else if num == 1 {
        Syscall::Exit
    } else if num == 2 {
        Syscall::Framebuffer { ptr: arg1 }
    } else if num == 3 {
        Syscall::PollEvent { ptr: arg1 }
    } else if num == 4 {
        Syscall::Time { ptr: arg1 }
    } else if num == 5 {
        Syscall::Power { reboot: arg1 != 0 }
    } else if num == 6 {
        Syscall::Setting { which: arg1 }
    } else if num == 7 {
        Syscall::SetDesktopColor { color: arg1 as u32 }
    } else if num == 18 {
        Syscall::PlayStartup
    } else if num == 20 {
        Syscall::StopSound
    } else if num == 21 {
        Syscall::SysInfo { ptr: arg1 }
    } else {
        match buffer_call_spec(num) {
            Some(call) => Syscall::Buffer { call, ptr: arg1, len: arg2 },
            None => Syscall::Unknown,
        }
    }
}

/// The buffer call numbered `num`: see `buffer_call_spec`.
pub fn buffer_call(num: u64) -> (r: Option<BufferCall>)
    ensures
        r == buffer_call_spec(num),
{
    match num {
        8 => Some(BufferCall::ListDir),
        9 => Some(BufferCall::CreateFile),
        10 => Some(BufferCall::DeleteFile),
        11 => Some(BufferCall::Rename),
        12 => Some(BufferCall::CreateDir),
        13 => Some(BufferCall::Move),
        14 => Some(BufferCall::RegistryList),
        15 => Some(BufferCall::RegistrySet),
        16 => Some(BufferCall::ReadFile),
        17 => Some(BufferCall::WriteFile),
        19 => Some(BufferCall::PlayFile),
        _ => None,
    }
}

/// The system call numbered `num` with arguments `arg1` and `arg2`: see `decode_spec`.
pub fn decode_syscall(num: u64, arg1: u64, arg2: u64) -> (r: Syscall)
    ensures
        r == decode_spec(num, arg1, arg2),
{
    match num {
        0 => Syscall::Print { ptr: arg1, len: arg2 },
        1 => Syscall::Exit,
        2 => Syscall::Framebuffer { ptr: arg1 },
        3 => Syscall::PollEvent { ptr: arg1 },
        4 => Syscall::Time { ptr: arg1 },
        5 => Syscall::Power { reboot: arg1 != 0 },
        6 => Syscall::Setting { which: arg1 },
        7 => Syscall::SetDesktopColor { color: #[verifier::truncate] (arg1 as u32) },
        18 => Syscall::PlayStartup,
        20 => Syscall::StopSound,
        21 => Syscall::SysInfo { ptr: arg1 },
        _ => match buffer_call(num) {
            Some(call) => Syscall::Buffer { call, ptr: arg1, len: arg2 },
            None => Syscall::Unknown,
        },
    }
}

/// The value of cached setting `which` among the desktop colour, taskbar colour and user
/// rights `cache` holds, 0 for any other.
pub open spec fn setting_spec(cache: (u32, u32, u32), which: u64) -> u64 {
    if which == 0 {
        cache.0 as u64
    } else if which == 1 {
        cache.1 as u64
    } else if which == 2 {
        cache.2 as u64
    } else {
        0
    }
}

/// The value of cached setting `which`: see `setting_spec`.
pub fn setting_value(cache: (u32, u32, u32), which: u64) -> (r: u64)
    ensures
        r == setting_spec(cache, which),
{
    match which {
        0 => cache.0 as u64,
        1 => cache.1 as u64,
        2 => cache.2 as u64,
        _ => 0,
    }
}

/// The system call numbers of the ring-3 interface, whatever the arguments: 0 print, 1 exit,
/// 2 framebuffer, 3 poll event, 4 time, 5 power, 6 setting, 7 desktop colour, 8 list
/// directory, 9 create file, 10 delete file, 11 rename, 12 create directory, 13 move, 14 list
/// registry, 15 set registry value, 16 read file, 17 write file, 18 start-up sound, 19 play
/// file, 20 stop sound, 21 system information; 22 and above name no call.
pub proof fn lemma_syscall_numbers(a: u64, b: u64)
    ensures
        decode_spec(0, a, b) == (Syscall::Print { ptr: a, len: b }),
        decode_spec(1, a, b) == Syscall::Exit,
        decode_spec(2, a, b) == (Syscall::Framebuffer { ptr: a }),
        decode_spec(3, a, b) == (Syscall::PollEvent { ptr: a }),
        decode_spec(4, a, b) == (Syscall::Time { ptr: a }),
        decode_spec(5, a, b) == (Syscall::Power { reboot: a != 0 }),
        decode_spec(6, a, b) == (Syscall::Setting { which: a }),
        decode_spec(7, a, b) == (Syscall::SetDesktopColor { color: a as u32 }),
        decode_spec(8, a, b) == (Syscall::Buffer { call: BufferCall::ListDir, ptr: a, len: b }),
        decode_spec(9, a, b) == (Syscall::Buffer { call: BufferCall::CreateFile, ptr: a, len: b }),
        decode_spec(10, a, b) == (Syscall::Buffer { call: BufferCall::DeleteFile, ptr: a, len: b }),
        decode_spec(11, a, b) == (Syscall::Buffer { call: BufferCall::Rename, ptr: a, len: b }),
        decode_spec(12, a, b) == (Syscall::Buffer { call: BufferCall::CreateDir, ptr: a, len: b }),
        decode_spec(13, a, b) == (Syscall::Buffer { call: BufferCall::Move, ptr: a, len: b }),
        decode_spec(14, a, b) == (Syscall::Buffer { call: BufferCall::RegistryList, ptr: a, len: b }),
        decode_spec(15, a, b) == (Syscall::Buffer { call: BufferCall::RegistrySet, ptr: a, len: b }),
        decode_spec(16, a, b) == (Syscall::Buffer { call: BufferCall::ReadFile, ptr: a, len: b }),
        decode_spec(17, a, b) == (Syscall::Buffer { call: BufferCall::WriteFile, ptr: a, len: b }),
        decode_spec(18, a, b) == Syscall::PlayStartup,
        decode_spec(19, a, b) == (Syscall::Buffer { call: BufferCall::PlayFile, ptr: a, len: b }),
        decode_spec(20, a, b) == Syscall::StopSound,
        decode_spec(21, a, b) == (Syscall::SysInfo { ptr: a }),
        forall|n: u64| n >= 22 ==> #[trigger] decode_spec(n, a, b) == Syscall::Unknown,
{
}

} // verus!
