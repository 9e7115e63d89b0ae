use vstd::prelude::*;
use vstd::string::StringExecFns;

verus! {

/// The digit `d`.
pub open spec fn digit(d: int) -> Seq<char> {
    if d == 0 {
        "0"@
    } else if d == 1 {
        "1"@
    } else if d == 2 {
        "2"@
    } else if d == 3 {
        "3"@
    } else if d == 4 {
        "4"@
    } else if d == 5 {
        "5"@
    } else if d == 6 {
        "6"@
    } else if d == 7 {
        "7"@
    } else if d == 8 {
        "8"@
    } else {
        "9"@
    }
}

/// A number in decimal digits.
pub open spec fn digits(n: nat) -> Seq<char>
    decreases n,
{
    if n < 10 {
        digit(n as int)
    } else {
        digits(n / 10) + digit((n % 10) as int)
    }
}

/// A signed number in decimal digits.
pub open spec fn decimal(v: int) -> Seq<char> {
    if v < 0 {
        "-"@ + digits((-v) as nat)
    } else {
        digits(v as nat)
    }
}

/// The name of a compression method.
pub open spec fn compression_name(method: i64) -> Seq<char> {
    if method == 0 {
        "Brimstone/PPMd"@
    } else if method == 1 {
        "Cyanide"@
    } else if method == 2 {
        "Darkhorse"@
    } else if method == 3 {
        "Deflate"@
    } else if method == 4 {
        "Blend"@
    } else if method == 5 {
        "None"@
    } else if method == 6 {
        "Iron"@
    } else {
        "Method "@ + decimal(method as int)
    }
}

/// The name of a preprocessor, with the sign that joins it to that of the method;
/// nothing for one without a name.
pub open spec fn preprocessor_suffix(preprocess: i64) -> Seq<char> {
    if preprocess == 0 {
        "+English"@
    } else if preprocess == 1 {
        "+Biff"@
    } else if preprocess == 2 {
        "+x86"@
    } else if preprocess == 3 {
        "+PEFF"@
    } else if preprocess == 4 {
        "+M68k"@
    } else if preprocess == 5 {
        "+Sparc"@
    } else if preprocess == 6 {
        "+TIFF"@
    } else if preprocess == 7 {
        "+WAV"@
    } else if preprocess == 8 {
        "+WRT"@
    } else {
        seq![]
    }
}

/// The name of the way a stream was packed.
pub open spec fn name_of(compression: i64, preprocess: i64) -> Seq<char> {
    compression_name(compression) + preprocessor_suffix(preprocess)
}

fn digit_text(d: u64) -> (r: &'static str)
    requires
        d < 10,
    ensures
        r@ == digit(d as int),
{
    if d == 0 {
        "0"
    } else if d == 1 {
        "1"
    } else if d == 2 {
        "2"
    } else if d == 3 {
        "3"
    } else if d == 4 {
        "4"
    } else if d == 5 {
        "5"
    } else if d == 6 {
        "6"
    } else if d == 7 {
        "7"
    } else if d == 8 {
        "8"
    } else {
        "9"
    }
}

fn append_digits(out: &mut String, n: u64)
    ensures
        final(out)@ == old(out)@ + digits(n as nat),
    decreases n,
{
    if n >= 10 {
        append_digits(out, n / 10);
        out.append(digit_text(n % 10));
        assert(old(out)@ + digits((n / 10) as nat) + digit((n % 10) as int) =~= old(out)@ + digits(n as nat));
    } else {
        out.append(digit_text(n));
    }
}

fn append_decimal(out: &mut String, v: i64)
    ensures
        final(out)@ == old(out)@ + decimal(v as int),
{
    if v < 0 {
        out.append("-");
        append_digits(out, (-(v as i128)) as u64);
        assert(old(out)@ + "-"@ + digits((-v) as nat) =~= old(out)@ + decimal(v as int));
    } else {
        append_digits(out, v as u64);
    }
}

/// The name of the way a stream was packed.
pub fn method_name(compression: i64, preprocess: i64) -> (r: String)
    ensures
        r@ == name_of(compression, preprocess),
{
    let mut name: String = if compression == 0 {
        String::from_str("Brimstone/PPMd")
    } else if compression == 1 {
        String::from_str("Cyanide")
    } else if compression == 2 {
        String::from_str("Darkhorse")
    } else if compression == 3 {
        String::from_str("Deflate")
    } else if compression == 4 {
        String::from_str("Blend")
    } else if compression == 5 {
        String::from_str("None")
    } else if compression == 6 {
        String::from_str("Iron")
    } else {
        let mut s: String = String::from_str("Method ");
        append_decimal(&mut s, compression);
        s
    };
    if preprocess == 0 {
        name.append("+English");
    } else if preprocess == 1 {
        name.append("+Biff");
    } else if preprocess == 2 {
        name.append("+x86");
    } else if preprocess == 3 {
        name.append("+PEFF");
    } else if preprocess == 4 {
        name.append("+M68k");
    } else if preprocess == 5 {
        name.append("+Sparc");
    } else if preprocess == 6 {
        name.append("+TIFF");
    } else if preprocess == 7 {
        name.append("+WAV");
    } else if preprocess == 8 {
        name.append("+WRT");
    } else {
        assert(name@ + Seq::<char>::empty() =~= name@);
    }
    name
}

} // verus!
