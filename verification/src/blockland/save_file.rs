use vstd::prelude::*;

use vstd::string::StringExecFns;

verus! {

/// The fixed header block of a save file: a warning line, the line
/// count marker of the description section, and the 64 colour palette
/// lines, each line ended by a carriage return and newline.
pub open spec fn spec_save_header() -> Seq<char> {
    "This is a Blockland save file.  You probably shouldn't modify it cause you'll screw it up.\r\n1\r\n\r\n0.898039 0.000000 0.000000 1.000000\r\n0.898039 0.898039 0.000000 1.000000\r\n0.000000 0.498039 0.247059 1.000000\r\n0.200000 0.000000 0.800000 1.000000\r\n0.898039 0.898039 0.898039 1.000000\r\n0.749020 0.749020 0.749020 1.000000\r\n0.498039 0.498039 0.498039 1.000000\r\n0.200000 0.200000 0.200000 1.000000\r\n0.392157 0.192157 0.000000 1.000000\r\n0.901961 0.337255 0.078431 1.000000\r\n0.749020 0.176471 0.482353 1.000000\r\n0.384314 0.000000 0.113725 1.000000\r\n0.129412 0.266667 0.266667 1.000000\r\n0.000000 0.137255 0.329412 1.000000\r\n0.101961 0.458824 0.764706 1.000000\r\n1.000000 1.000000 1.000000 1.000000\r\n0.078431 0.078431 0.078431 1.000000\r\n1.000000 1.000000 1.000000 0.247059\r\n0.921569 0.513726 0.674510 1.000000\r\n1.000000 0.603922 0.419608 1.000000\r\n1.000000 0.874510 0.611765 1.000000\r\n0.956863 0.874510 0.784314 1.000000\r\n0.784314 0.921569 0.486275 1.000000\r\n0.537255 0.694118 0.549020 1.000000\r\n0.556863 0.929412 0.956863 1.000000\r\n0.694118 0.658824 0.901961 1.000000\r\n0.874510 0.556863 0.956863 1.000000\r\n0.666667 0.000000 0.000000 0.698039\r\n1.000000 0.498039 0.000000 0.698039\r\n0.988235 0.956863 0.000000 0.698039\r\n0.000000 0.470588 0.192157 0.698039\r\n0.000000 0.200000 0.639216 0.698039\r\n0.592157 0.156863 0.392157 0.694118\r\n0.549020 0.698039 1.000000 0.698039\r\n0.847059 0.847059 0.847059 0.698039\r\n0.098039 0.098039 0.098039 0.698039\r\n1.000000 0.000000 1.000000 0.000000\r\n1.000000 0.000000 1.000000 0.000000\r\n1.000000 0.000000 1.000000 0.000000\r\n1.000000 0.000000 1.000000 0.000000\r\n1.000000 0.000000 1.000000 0.000000\r\n1.000000 0.000000 1.000000 0.000000\r\n1.000000 0.000000 1.000000 0.000000\r\n1.000000 0.000000 1.000000 0.000000\r\n1.000000 0.000000 1.000000 0.000000\r\n1.000000 0.000000 1.000000 0.000000\r\n1.000000 0.000000 1.000000 0.000000\r\n1.000000 0.000000 1.000000 0.000000\r\n1.000000 0.000000 1.000000 0.000000\r\n1.000000 0.000000 1.000000 0.000000\r\n1.000000 0.000000 1.000000 0.000000\r\n1.000000 0.000000 1.000000 0.000000\r\n1.000000 0.000000 1.000000 0.000000\r\n1.000000 0.000000 1.000000 0.000000\r\n1.000000 0.000000 1.000000 0.000000\r\n1.000000 0.000000 1.000000 0.000000\r\n1.000000 0.000000 1.000000 0.000000\r\n1.000000 0.000000 1.000000 0.000000\r\n1.000000 0.000000 1.000000 0.000000\r\n1.000000 0.000000 1.000000 0.000000\r\n1.000000 0.000000 1.000000 0.000000\r\n1.000000 0.000000 1.000000 0.000000\r\n1.000000 0.000000 1.000000 0.000000\r\n1.000000 0.000000 1.000000 0.000000\r\n"@
}

/// The header text that precedes the brick lines of a save file.
pub fn save_header() -> (r: String)
    ensures
        r@ == spec_save_header(),
{
    String::from_str(
        "This is a Blockland save file.  You probably shouldn't modify it cause you'll screw it up.\r\n1\r\n\r\n0.898039 0.000000 0.000000 1.000000\r\n0.898039 0.898039 0.000000 1.000000\r\n0.000000 0.498039 0.247059 1.000000\r\n0.200000 0.000000 0.800000 1.000000\r\n0.898039 0.898039 0.898039 1.000000\r\n0.749020 0.749020 0.749020 1.000000\r\n0.498039 0.498039 0.498039 1.000000\r\n0.200000 0.200000 0.200000 1.000000\r\n0.392157 0.192157 0.000000 1.000000\r\n0.901961 0.337255 0.078431 1.000000\r\n0.749020 0.176471 0.482353 1.000000\r\n0.384314 0.000000 0.113725 1.000000\r\n0.129412 0.266667 0.266667 1.000000\r\n0.000000 0.137255 0.329412 1.000000\r\n0.101961 0.458824 0.764706 1.000000\r\n1.000000 1.000000 1.000000 1.000000\r\n0.078431 0.078431 0.078431 1.000000\r\n1.000000 1.000000 1.000000 0.247059\r\n0.921569 0.513726 0.674510 1.000000\r\n1.000000 0.603922 0.419608 1.000000\r\n1.000000 0.874510 0.611765 1.000000\r\n0.956863 0.874510 0.784314 1.000000\r\n0.784314 0.921569 0.486275 1.000000\r\n0.537255 0.694118 0.549020 1.000000\r\n0.556863 0.929412 0.956863 1.000000\r\n0.694118 0.658824 0.901961 1.000000\r\n0.874510 0.556863 0.956863 1.000000\r\n0.666667 0.000000 0.000000 0.698039\r\n1.000000 0.498039 0.000000 0.698039\r\n0.988235 0.956863 0.000000 0.698039\r\n0.000000 0.470588 0.192157 0.698039\r\n0.000000 0.200000 0.639216 0.698039\r\n0.592157 0.156863 0.392157 0.694118\r\n0.549020 0.698039 1.000000 0.698039\r\n0.847059 0.847059 0.847059 0.698039\r\n0.098039 0.098039 0.098039 0.698039\r\n1.000000 0.000000 1.000000 0.000000\r\n1.000000 0.000000 1.000000 0.000000\r\n1.000000 0.000000 1.000000 0.000000\r\n1.000000 0.000000 1.000000 0.000000\r\n1.000000 0.000000 1.000000 0.000000\r\n1.000000 0.000000 1.000000 0.000000\r\n1.000000 0.000000 1.000000 0.000000\r\n1.000000 0.000000 1.000000 0.000000\r\n1.000000 0.000000 1.000000 0.000000\r\n1.000000 0.000000 1.000000 0.000000\r\n1.000000 0.000000 1.000000 0.000000\r\n1.000000 0.000000 1.000000 0.000000\r\n1.000000 0.000000 1.000000 0.000000\r\n1.000000 0.000000 1.000000 0.000000\r\n1.000000 0.000000 1.000000 0.000000\r\n1.000000 0.000000 1.000000 0.000000\r\n1.000000 0.000000 1.000000 0.000000\r\n1.000000 0.000000 1.000000 0.000000\r\n1.000000 0.000000 1.000000 0.000000\r\n1.000000 0.000000 1.000000 0.000000\r\n1.000000 0.000000 1.000000 0.000000\r\n1.000000 0.000000 1.000000 0.000000\r\n1.000000 0.000000 1.000000 0.000000\r\n1.000000 0.000000 1.000000 0.000000\r\n1.000000 0.000000 1.000000 0.000000\r\n1.000000 0.000000 1.000000 0.000000\r\n1.000000 0.000000 1.000000 0.000000\r\n1.000000 0.000000 1.000000 0.000000\r\n",
    )
}

} // verus!
