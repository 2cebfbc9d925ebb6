//! A car and the builder that assembles it step by step.

use vstd::prelude::*;

verus! {

/// A finished car.
#[derive(Debug, Eq, PartialEq)]
pub struct Car {
    pub maker: String,
    pub seats: u8,
    pub color: String,
}

/// Collects the properties of a car before it is built.
pub struct CarBuilder {
    color: String,
    seats: u8,
    maker: String,
}

impl CarBuilder {
    /// The colour chosen so far.
    pub closed spec fn spec_color(&self) -> Seq<char> {
        self.color@
    }

    /// The number of seats chosen so far.
    pub closed spec fn spec_seats(&self) -> u8 {
        self.seats
    }

    /// The maker chosen so far.
    pub closed spec fn spec_maker(&self) -> Seq<char> {
        self.maker@
    }

    /// A builder for a car with four seats, no colour and no maker.
    pub fn new() -> (builder: CarBuilder)
        ensures
            builder.spec_color() == Seq::<char>::empty(),
            builder.spec_seats() == 4,
            builder.spec_maker() == Seq::<char>::empty(),
    {
        CarBuilder { color: String::new(), seats: 4, maker: String::new() }
    }

    /// Chooses the colour.
    pub fn with_color(self, color: &str) -> (builder: CarBuilder)
        ensures
            builder.spec_color() == color@,
            builder.spec_seats() == self.spec_seats(),
            builder.spec_maker() == self.spec_maker(),
    {
        let mut builder = self;
        builder.color = color.to_owned();
        builder
    }

    /// Chooses the number of seats.
    pub fn with_seats(self, seats: u8) -> (builder: CarBuilder)
        ensures
            builder.spec_color() == self.spec_color(),
            builder.spec_seats() == seats,
            builder.spec_maker() == self.spec_maker(),
    {
        let mut builder = self;
        builder.seats = seats;
        builder
    }

    /// Chooses the maker.
    pub fn with_maker(self, maker: &str) -> (builder: CarBuilder)
        ensures
            builder.spec_color() == self.spec_color(),
            builder.spec_seats() == self.spec_seats(),
            builder.spec_maker() == maker@,
    {
        let mut builder = self;
        builder.maker = maker.to_owned();
        builder
    }

    /// The car with the properties chosen.
    pub fn build(self) -> (car: Car)
        ensures
            car.color@ == self.spec_color(),
            car.seats == self.spec_seats(),
            car.maker@ == self.spec_maker(),
    {
        Car { color: self.color, maker: self.maker, seats: self.seats }
    }
}

} // verus!
