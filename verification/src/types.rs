use vstd::prelude::*;

verus! {

/// A symbol version. Version `v` is a square of `17 + 4 * v` modules per side.
#[derive(Clone, Copy, Debug, PartialEq, Eq, Structural)]
pub enum Version {
    V1,
    V2,
    V3,
    V4,
    V5,
    V6,
    V7,
    V8,
    V9,
    V10,
    V11,
    V12,
    V13,
    V14,
    V15,
    V16,
    V17,
    V18,
    V19,
    V20,
    V21,
    V22,
    V23,
    V24,
    V25,
    V26,
    V27,
    V28,
    V29,
    V30,
    V31,
    V32,
    V33,
    V34,
    V35,
    V36,
    V37,
    V38,
    V39,
    V40,
}

impl Version {
    /// The version number, from 1 to 40.
    pub open spec fn number(self) -> int {
        match self {
            Version::V1 => 1,
            Version::V2 => 2,
            Version::V3 => 3,
            Version::V4 => 4,
            Version::V5 => 5,
            Version::V6 => 6,
            Version::V7 => 7,
            Version::V8 => 8,
            Version::V9 => 9,
            Version::V10 => 10,
            Version::V11 => 11,
            Version::V12 => 12,
            Version::V13 => 13,
            Version::V14 => 14,
            Version::V15 => 15,
            Version::V16 => 16,
            Version::V17 => 17,
            Version::V18 => 18,
            Version::V19 => 19,
            Version::V20 => 20,
            Version::V21 => 21,
            Version::V22 => 22,
            Version::V23 => 23,
            Version::V24 => 24,
            Version::V25 => 25,
            Version::V26 => 26,
            Version::V27 => 27,
            Version::V28 => 28,
            Version::V29 => 29,
            Version::V30 => 30,
            Version::V31 => 31,
            Version::V32 => 32,
            Version::V33 => 33,
            Version::V34 => 34,
            Version::V35 => 35,
            Version::V36 => 36,
            Version::V37 => 37,
            Version::V38 => 38,
            Version::V39 => 39,
            Version::V40 => 40,
        }
    }

    /// The number of modules along one side of the symbol.
    pub open spec fn side(self) -> int {
        17 + 4 * self.number()
    }

    /// The version with the given number, if the number lies between 1 and 40.
    pub open spec fn of_number(n: int) -> Option<Version> {
        if n == 1 {
            Some(Version::V1)
        } else if n == 2 {
            Some(Version::V2)
        } else if n == 3 {
            Some(Version::V3)
        } else if n == 4 {
            Some(Version::V4)
        } else if n == 5 {
            Some(Version::V5)
        } else if n == 6 {
            Some(Version::V6)
        } else if n == 7 {
            Some(Version::V7)
        } else if n == 8 {
            Some(Version::V8)
        } else if n == 9 {
            Some(Version::V9)
        } else if n == 10 {
            Some(Version::V10)
        } else if n == 11 {
            Some(Version::V11)
        } else if n == 12 {
            Some(Version::V12)
        } else if n == 13 {
            Some(Version::V13)
        } else if n == 14 {
            Some(Version::V14)
        } else if n == 15 {
            Some(Version::V15)
        } else if n == 16 {
            Some(Version::V16)
        } else if n == 17 {
            Some(Version::V17)
        } else if n == 18 {
            Some(Version::V18)
        } else if n == 19 {
            Some(Version::V19)
        } else if n == 20 {
            Some(Version::V20)
        } else if n == 21 {
            Some(Version::V21)
        } else if n == 22 {
            Some(Version::V22)
        } else if n == 23 {
            Some(Version::V23)
        } else if n == 24 {
            Some(Version::V24)
        } else if n == 25 {
            Some(Version::V25)
        } else if n == 26 {
            Some(Version::V26)
        } else if n == 27 {
            Some(Version::V27)
        } else if n == 28 {
            Some(Version::V28)
        } else if n == 29 {
            Some(Version::V29)
        } else if n == 30 {
            Some(Version::V30)
        } else if n == 31 {
            Some(Version::V31)
        } else if n == 32 {
            Some(Version::V32)
        } else if n == 33 {
            Some(Version::V33)
        } else if n == 34 {
            Some(Version::V34)
        } else if n == 35 {
            Some(Version::V35)
        } else if n == 36 {
            Some(Version::V36)
        } else if n == 37 {
            Some(Version::V37)
        } else if n == 38 {
            Some(Version::V38)
        } else if n == 39 {
            Some(Version::V39)
        } else if n == 40 {
            Some(Version::V40)
        } else {
            None
        }
    }

    /// A version's number lies between 1 and 40 and names the version.
    pub proof fn lemma_number_range(self)
        ensures
            1 <= self.number() <= 40,
            Version::of_number(self.number()) == Some(self),
    {
    }

    /// Exactly the numbers from 1 to 40 name a version, each the version of that number.
    pub proof fn lemma_of_number(n: int)
        ensures
            Version::of_number(n) is Some <==> 1 <= n <= 40,
            Version::of_number(n) is Some ==> Version::of_number(n).unwrap().number() == n,
    {
    }

    /// The version number, from 1 to 40.
    pub fn to_u8(&self) -> (n: u8)
        ensures
            n == self.number(),
    {
        match self {
            Version::V1 => 1,
            Version::V2 => 2,
            Version::V3 => 3,
            Version::V4 => 4,
            Version::V5 => 5,
            Version::V6 => 6,
            Version::V7 => 7,
            Version::V8 => 8,
            Version::V9 => 9,
            Version::V10 => 10,
            Version::V11 => 11,
            Version::V12 => 12,
            Version::V13 => 13,
            Version::V14 => 14,
            Version::V15 => 15,
            Version::V16 => 16,
            Version::V17 => 17,
            Version::V18 => 18,
            Version::V19 => 19,
            Version::V20 => 20,
            Version::V21 => 21,
            Version::V22 => 22,
            Version::V23 => 23,
            Version::V24 => 24,
            Version::V25 => 25,
            Version::V26 => 26,
            Version::V27 => 27,
            Version::V28 => 28,
            Version::V29 => 29,
            Version::V30 => 30,
            Version::V31 => 31,
            Version::V32 => 32,
            Version::V33 => 33,
            Version::V34 => 34,
            Version::V35 => 35,
            Version::V36 => 36,
            Version::V37 => 37,
            Version::V38 => 38,
            Version::V39 => 39,
            Version::V40 => 40,
        }
    }

    /// The number of modules along one side of the symbol.
    pub fn size(&self) -> (n: usize)
        ensures
            n == self.side(),
    {
        let v: usize = self.to_u8() as usize;
        17 + 4 * v
    }

    /// The version with the given number, if the number lies between 1 and 40.
    pub fn from_u8(n: u8) -> (r: Option<Version>)
        ensures
            r == Version::of_number(n as int),
    {
        match n {
            1 => Some(Version::V1),
            2 => Some(Version::V2),
            3 => Some(Version::V3),
            4 => Some(Version::V4),
            5 => Some(Version::V5),
            6 => Some(Version::V6),
            7 => Some(Version::V7),
            8 => Some(Version::V8),
            9 => Some(Version::V9),
            10 => Some(Version::V10),
            11 => Some(Version::V11),
            12 => Some(Version::V12),
            13 => Some(Version::V13),
            14 => Some(Version::V14),
            15 => Some(Version::V15),
            16 => Some(Version::V16),
            17 => Some(Version::V17),
            18 => Some(Version::V18),
            19 => Some(Version::V19),
            20 => Some(Version::V20),
            21 => Some(Version::V21),
            22 => Some(Version::V22),
            23 => Some(Version::V23),
            24 => Some(Version::V24),
            25 => Some(Version::V25),
            26 => Some(Version::V26),
            27 => Some(Version::V27),
            28 => Some(Version::V28),
            29 => Some(Version::V29),
            30 => Some(Version::V30),
            31 => Some(Version::V31),
            32 => Some(Version::V32),
            33 => Some(Version::V33),
            34 => Some(Version::V34),
            35 => Some(Version::V35),
            36 => Some(Version::V36),
            37 => Some(Version::V37),
            38 => Some(Version::V38),
            39 => Some(Version::V39),
            40 => Some(Version::V40),
            _ => None,
        }
    }
}

/// Error-correction level: the share of codewords spent on parity grows from `L` to `H`.
#[derive(Clone, Copy, Debug, PartialEq, Eq, Structural)]
pub enum ErrorCorrection {
    L,
    M,
    Q,
    H,
}

/// How the payload characters are packed into bits.
#[derive(Clone, Copy, Debug, PartialEq, Eq, Structural)]
pub enum DataMode {
    Numeric,
    Alphanumeric,
    Byte,
}

/// One of the eight data-masking patterns.
#[derive(Clone, Copy, Debug, PartialEq, Eq, Structural)]
pub enum MaskPattern {
    Pattern0,
    Pattern1,
    Pattern2,
    Pattern3,
    Pattern4,
    Pattern5,
    Pattern6,
    Pattern7,
}

impl MaskPattern {
    /// The three-bit index of the pattern.
    pub open spec fn index(self) -> int {
        match self {
            MaskPattern::Pattern0 => 0,
            MaskPattern::Pattern1 => 1,
            MaskPattern::Pattern2 => 2,
            MaskPattern::Pattern3 => 3,
            MaskPattern::Pattern4 => 4,
            MaskPattern::Pattern5 => 5,
            MaskPattern::Pattern6 => 6,
            MaskPattern::Pattern7 => 7,
        }
    }

    /// The pattern with the given index; indices above 7 count as 7.
    pub open spec fn of_index(i: int) -> MaskPattern {
        if i == 0 {
            MaskPattern::Pattern0
        } else if i == 1 {
            MaskPattern::Pattern1
        } else if i == 2 {
            MaskPattern::Pattern2
        } else if i == 3 {
            MaskPattern::Pattern3
        } else if i == 4 {
            MaskPattern::Pattern4
        } else if i == 5 {
            MaskPattern::Pattern5
        } else if i == 6 {
            MaskPattern::Pattern6
        } else {
            MaskPattern::Pattern7
        }
    }

    /// The three-bit index of the pattern.
    pub fn to_u8(&self) -> (n: u8)
        ensures
            n == self.index(),
    {
        match self {
            MaskPattern::Pattern0 => 0,
            MaskPattern::Pattern1 => 1,
            MaskPattern::Pattern2 => 2,
            MaskPattern::Pattern3 => 3,
            MaskPattern::Pattern4 => 4,
            MaskPattern::Pattern5 => 5,
            MaskPattern::Pattern6 => 6,
            MaskPattern::Pattern7 => 7,
        }
    }

    /// The pattern with the given index, if the index is below 8.
    pub fn from_u8(n: u8) -> (r: Option<MaskPattern>)
        ensures
            r is Some <==> n < 8,
            n < 8 ==> r == Some(MaskPattern::of_index(n as int)),
    {
        match n {
            0 => Some(MaskPattern::Pattern0),
            1 => Some(MaskPattern::Pattern1),
            2 => Some(MaskPattern::Pattern2),
            3 => Some(MaskPattern::Pattern3),
            4 => Some(MaskPattern::Pattern4),
            5 => Some(MaskPattern::Pattern5),
            6 => Some(MaskPattern::Pattern6),
            7 => Some(MaskPattern::Pattern7),
            _ => None,
        }
    }
}

impl Default for MaskPattern {
    fn default() -> (r: MaskPattern)
        ensures
            r == MaskPattern::Pattern0,
    {
        MaskPattern::Pattern0
    }
}

/// The file format a rendered symbol is written in.
#[derive(Clone, Copy, Debug, PartialEq, Eq, Structural)]
pub enum OutputFormat {
    Png,
    Svg,
}

/// What a caller asks of the generator.
pub struct QrConfig {
    pub error_correction: ErrorCorrection,
    pub data_mode: DataMode,
    pub mask_pattern: MaskPattern,
    pub skip_mask: bool,
    pub output_filename: String,
    pub output_format: OutputFormat,
    pub data: String,
    pub verbose: bool,
}

impl Default for QrConfig {
    fn default() -> (r: QrConfig)
        ensures
            r.error_correction == ErrorCorrection::M,
            r.data_mode == DataMode::Byte,
            r.mask_pattern == MaskPattern::Pattern0,
            !r.skip_mask,
            r.output_filename@ == "qr-code.png"@,
            r.output_format == OutputFormat::Png,
            r.data@ == "https://www.example.com/"@,
            !r.verbose,
    {
        QrConfig {
            error_correction: ErrorCorrection::M,
            data_mode: DataMode::Byte,
            mask_pattern: MaskPattern::Pattern0,
            skip_mask: false,
            output_filename: "qr-code.png".to_owned(),
            output_format: OutputFormat::Png,
            data: "https://www.example.com/".to_owned(),
            verbose: false,
        }
    }
}

} // verus!
