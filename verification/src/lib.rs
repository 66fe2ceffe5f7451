pub mod c4;
pub mod colors;
pub mod css;
pub mod fonts;
pub mod labels;
pub mod markup;
pub mod order;
pub mod rng;
pub mod text;
pub mod ttf;
pub mod wrap;
