# countdown

A small suite around dated entries (`YYYYMMDD` keys with a label):

- a Discord bot that answers a mention with the number of days left until
  each upcoming date;
- a REST service (a WASI HTTP component) that lists, adds and removes the
  date files;
- a web page that shows each date with a countdown chip.

`src/` is the verified library (Verus): the calendar model and day numbers
(`calendar`), the calls into `chrono` (`clock`), date entries and their
table (`dates`), the bot's rules (`bot`), the service's routing and answers
(`api`), the page's display rules (`manager`) and text helpers (`text`).

`app/` holds the programs around it: the bot's event loop, the service's
file and HTTP plumbing, and the page's view.
