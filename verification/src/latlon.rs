use vstd::prelude::*;

verus! {

broadcast use vstd::string::to_string_from_display_ensures_for_str;

/// A point on Earth's surface: latitude and longitude in decimal
/// degrees, stored as whole ten-millionths of a degree so that the
/// record handling and tour bookkeeping stay in exact integer
/// arithmetic. One unit is about a centimetre on the ground.
#[derive(Clone, Copy, Debug, PartialEq, Eq, Structural)]
pub struct LatLon {
    pub lat: i64,
    pub lon: i64,
}

impl LatLon {
    /// A coordinate from latitude and longitude, each in
    /// ten-millionths of a degree.
    pub fn new(lat: i64, lon: i64) -> (p: LatLon)
        ensures
            p == (LatLon { lat, lon }),
    {
        LatLon { lat, lon }
    }
}

/// A named waypoint: a coordinate paired with a display label. Used as
/// a fixed tour origin.
#[derive(Clone, Debug)]
pub struct StartingPoint {
    latlon: LatLon,
    where_label: String,
}

impl StartingPoint {
    /// The waypoint's coordinate.
    pub closed spec fn spec_latlon(&self) -> LatLon {
        self.latlon
    }

    /// The waypoint's display label.
    pub closed spec fn spec_where(&self) -> Seq<char> {
        self.where_label@
    }

    fn new(latlon: LatLon, where_label: String) -> (s: Self)
        ensures
            s.spec_latlon() == latlon,
            s.spec_where() == where_label@,
    {
        StartingPoint { latlon, where_label }
    }

    /// The waypoint's coordinate.
    pub fn latlon(&self) -> (p: &LatLon)
        ensures
            *p == self.spec_latlon(),
    {
        &self.latlon
    }

    /// The waypoint's display label.
    pub fn where_label(&self) -> (w: &String)
        ensures
            w@ == self.spec_where(),
    {
        &self.where_label
    }
}

/// The fixed waypoint at the Grønland metro station, at
/// (59.91273, 10.76139) degrees.
pub fn gronland_tbane() -> (s: StartingPoint)
    ensures
        s.spec_latlon() == (LatLon { lat: 599127300, lon: 107613900 }),
        s.spec_where() == "Grønland T-bane"@,
{
    StartingPoint::new(LatLon::new(599127300, 107613900), "Grønland T-bane".to_string())
}

/// The fixed waypoint at Kampen, at (59.91334, 10.774524) degrees.
pub fn kampen() -> (s: StartingPoint)
    ensures
        s.spec_latlon() == (LatLon { lat: 599133400, lon: 107745240 }),
        s.spec_where() == "Kampen"@,
{
    StartingPoint::new(LatLon::new(599133400, 107745240), "Kampen".to_string())
}

} // verus!
