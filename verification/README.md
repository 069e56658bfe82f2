# dice_parser

Parsing and rolling of tabletop dice notation (`2d6 + 3`, `4d6kh3 - 1d4`), verified with Verus.

- `src/text.rs`: character classes, decimal values, UTF-8 byte offsets.
- `src/ast.rs`: `DiceExpr`, `RollSpec`, `Keep`.
- `src/parser.rs`: the parser and the grammar it follows, stated as spec functions over the
  input's characters (`parse_spec`); error positions are byte offsets. Whitespace inserted
  between tokens is proved not to change what an input parses to.
- `src/roller.rs`: evaluation. Rolling draws values from `rand`; every result is proved to be
  `eval_expr` of some valid sequence of dice, and those dice to be the faces made from the
  values the generator returned (a hundred-sided die from a ones and a tens value).
  `RollSpec::evaluate` and `DiceExpr::evaluate` compute a roll or an expression from given
  dice exactly.
- `src/laws.rs`: properties that hold for every sequence of draws (bounds of the total, the
  modifier, the recorded dice, keep-highest against keep-lowest).
- `src/error.rs`: errors and their messages.
- `src/random.rs`: the trusted calls into `rand`, and ghost records of the ranges requested
  from the generator and the values it returned, which the rolling functions' contracts state.
- `app/lib.rs`: `Display`, `Debug` and `std::error::Error` for errors, through a wrapper.
